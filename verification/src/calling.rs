//! What calls lead to: which function a name that is called stands for.
use vstd::prelude::*;

use crate::callables;
use crate::callables::CallableView;
use crate::errors::FaultView;
use crate::following;
use crate::index;
use crate::index::IndexView;
use crate::index::Lookup;
use crate::model;
use crate::model::BaseView;
use crate::model::BindingView;
use crate::model::FunctionView;
use crate::model::ModuleView;
use crate::resolve;
use crate::text;
use crate::text::Text;

verus! {

/// Whether function `i` is the first one of an owner and a name: a method of a class, or of none.
pub open spec fn is_first(functions: Seq<FunctionView>, owner: Option<Text>, name: Text, i: int) -> bool {
    &&& 0 <= i < functions.len()
    &&& functions[i].class_name == owner && functions[i].name == name
    &&& forall|k: int| 0 <= k < i ==> (#[trigger] functions[k]).class_name != owner || functions[k].name != name
}

/// Whether a module has no function of an owner and a name.
pub open spec fn has_none(functions: Seq<FunctionView>, owner: Option<Text>, name: Text) -> bool {
    forall|k: int| 0 <= k < functions.len() ==> (#[trigger] functions[k]).class_name != owner || functions[k].name != name
}

/// Whether a module at hand has function `i` as the first one of an owner and a name.
pub open spec fn has_first(idx: IndexView, module: Text, owner: Option<Text>, name: Text, i: int) -> bool {
    idx.lookup(module) matches Lookup::Known { module: info, .. } && is_first(info.functions, owner, name, i)
}

/// Whether a call leads to function `i` of a module at hand, and shows it as it is.
pub open spec fn leads_to(idx: IndexView, answer: Result<Option<CallableView>, FaultView>, module: Text, i: int) -> bool {
    answer matches Ok(Some(callable)) && idx.lookup(module) matches Lookup::Known { module: info, external } && {
        let function = info.functions[i];
        &&& callable.key == model::callable_key_of(module, function)
        &&& callable.item.name == function.name
        &&& callable.item.kind == function.kind
        &&& callable.item.path == info.path
        &&& callable.item.line == function.line
        &&& callable.item.col == function.col
        &&& callable.item.external == external
    }
}

proof fn lemma_first(functions: Seq<FunctionView>, owner: Option<Text>, name: Text)
    ensures
        forall|i: int|
            is_first(functions, owner, name, i) ==> callables::function_slot(functions, owner, name) == Some(i),
        has_none(functions, owner, name) ==> callables::function_slot(functions, owner, name) is None,
{
    callables::lemma_function_slot(functions, owner, name);
}

proof fn lemma_parts(parts: Seq<Text>)
    requires
        parts.len() > 0,
        following::are_names(parts),
    ensures
        text::split(following::dotted(parts), Some('.')) == parts,
{
    assert forall|i: int, k: int| 0 <= i < parts.len() && 0 <= k < parts[i].len() implies !text::breaks(
        #[trigger] parts[i][k],
        Some('.'),
    ) by {
        assert(following::is_name(parts[i]));
    }
    text::law_split_undoes_join(parts, '.', Some('.'));
}

proof fn lemma_one(name: Text)
    requires
        following::is_name(name),
    ensures
        text::split(name, Some('.')) == seq![name],
{
    assert(following::are_names(seq![name]));
    lemma_parts(seq![name]);
    assert(following::dotted(seq![name]) == name);
}

proof fn lemma_two(first: Text, second: Text)
    requires
        following::is_name(first),
        following::is_name(second),
    ensures
        text::split(following::dotted(seq![first, second]), Some('.')) == seq![first, second],
        seq![first, second].drop_first() == seq![second],
{
    assert(following::are_names(seq![first, second]));
    lemma_parts(seq![first, second]);
    assert(seq![first, second].drop_first() =~= seq![second]);
}

/// A name that is called leads to the function of that name at the top of the module, where the
/// module does not import the name.
pub proof fn law_calls_lead_to_own_functions(idx: IndexView, module: Text, caller: FunctionView, name: Text, i: int)
    requires
        idx.wf(),
        following::is_name(name),
        has_first(idx, module, None, name, i),
        !idx.module(module).imports.contains_key(name),
    ensures
        leads_to(idx, callables::callable_in(idx, idx.module(module), caller, name), module, i),
{
    index::lemma_lookup(idx, module);
    lemma_one(name);
    lemma_first(idx.module(module).functions, None, name);
    assert(seq![name].drop_first() =~= Seq::<Text>::empty());
}

/// Whether places lead on from one to the next: each is a name that a module imports from the next
/// place and for which it has no function itself. No place comes twice.
pub open spec fn is_call_trail(idx: IndexView, places: Seq<(Text, Text)>) -> bool {
    &&& places.len() > 0
    &&& places.no_duplicates()
    &&& forall|k: int|
        0 <= k < places.len() - 1 ==> (idx.lookup((#[trigger] places[k]).0) matches Lookup::Known { module: info, .. }
            && has_none(info.functions, None, places[k].1) && info.imports.contains_key(places[k].1)
            && info.imports[places[k].1] == (BindingView::ImportedName {
            module: places[k + 1].0,
            name: places[k + 1].1,
        }))
}

proof fn lemma_call_trail(idx: IndexView, places: Seq<(Text, Text)>, i: int, followed: Set<(Text, Text)>)
    requires
        idx.wf(),
        is_call_trail(idx, places),
        has_first(idx, places.last().0, None, places.last().1, i),
        forall|k: int| 0 <= k < places.len() ==> !followed.contains(#[trigger] places[k]),
    ensures
        leads_to(
            idx,
            callables::bound_callable(
                idx,
                BindingView::ImportedName { module: places[0].0, name: places[0].1 },
                followed,
            ),
            places.last().0,
            i,
        ),
    decreases places.len(),
{
    let (module, name) = places[0];
    index::lemma_lookup(idx, module);
    lemma_first(idx.module(module).functions, None, name);
    if places.len() > 1 {
        let rest = places.drop_first();
        let inner = followed.insert(places[0]);
        assert(resolve::sites(idx).contains((module, name)));
        resolve::lemma_unfollowed(idx, followed, (module, name));
        assert forall|k: int| 0 <= k < rest.len() - 1 implies (idx.lookup((#[trigger] rest[k]).0) matches Lookup::Known {
            module: info,
            ..
        } && has_none(info.functions, None, rest[k].1) && info.imports.contains_key(rest[k].1)
            && info.imports[rest[k].1] == (BindingView::ImportedName {
            module: rest[k + 1].0,
            name: rest[k + 1].1,
        })) by {
            assert(rest[k] == places[k + 1]);
        }
        assert forall|k: int| 0 <= k < rest.len() implies !inner.contains(#[trigger] rest[k]) by {
            assert(rest[k] == places[k + 1]);
        }
        assert(rest.no_duplicates());
        assert(rest.last() == places.last());
        lemma_call_trail(idx, rest, i, inner);
        assert(callables::named_callable(idx, module, name, Set::empty(), followed)
            == callables::bound_callable(
            idx,
            BindingView::ImportedName { module: rest[0].0, name: rest[0].1 },
            inner,
        ));
    } else {
        assert(callables::named_callable(idx, module, name, Set::empty(), followed) is Ok);
    }
}

/// An imported name that is called leads to the function that its imports lead to, through any number
/// of modules that pass it on.
pub proof fn law_calls_follow_imports(idx: IndexView, info: ModuleView, caller: FunctionView, name: Text, places: Seq<(Text, Text)>, i: int)
    requires
        idx.wf(),
        following::is_name(name),
        is_call_trail(idx, places),
        has_first(idx, places.last().0, None, places.last().1, i),
        info.imports.contains_key(name),
        info.imports[name] == (BindingView::ImportedName { module: places[0].0, name: places[0].1 }),
    ensures
        leads_to(idx, callables::callable_in(idx, info, caller, name), places.last().0, i),
{
    lemma_one(name);
    assert(seq![name].drop_first() =~= Seq::<Text>::empty());
    lemma_call_trail(idx, places, i, Set::empty());
}

/// Whether a module is known not to have a function of a name: it is absent, or it neither defines
/// nor imports it, and imports all names of no module.
pub open spec fn lacks(idx: IndexView, module: Text, name: Text) -> bool {
    match idx.lookup(module) {
        Lookup::Known { module: info, .. } => has_none(info.functions, None, name) && !info.imports.contains_key(name)
            && info.star_imports.len() == 0,
        Lookup::Absent => true,
        Lookup::Unknown => false,
    }
}

proof fn lemma_call_stars(idx: IndexView, stars: Seq<Text>, name: Text, seen: Set<Text>, k: int, i: int)
    requires
        idx.wf(),
        0 <= k < stars.len(),
        forall|j: int| 0 <= j < k ==> lacks(idx, #[trigger] stars[j], name),
        has_first(idx, stars[k], None, name, i),
        !seen.contains(stars[k]),
    ensures
        leads_to(idx, callables::callable_in_stars(idx, stars, name, seen, Set::empty()), stars[k], i),
    decreases k,
{
    index::lemma_lookup(idx, stars[0]);
    lemma_first(idx.module(stars[0]).functions, None, name);
    if k > 0 {
        let rest = stars.drop_first();
        assert(lacks(idx, stars[0], name));
        assert(callables::named_callable(idx, stars[0], name, seen, Set::empty()) == Ok::<
            Option<CallableView>,
            FaultView,
        >(None)) by {
            if !seen.contains(stars[0]) {
                if let Lookup::Known { module: info, .. } = idx.lookup(stars[0]) {
                    resolve::lemma_unseen(idx, seen, stars[0]);
                    assert(info.star_imports =~= Seq::empty());
                    assert(callables::callable_in_stars(
                        idx,
                        info.star_imports,
                        name,
                        seen.insert(stars[0]),
                        Set::empty(),
                    ) == Ok::<Option<CallableView>, FaultView>(None));
                }
            }
        }
        assert forall|j: int| 0 <= j < k - 1 implies lacks(idx, #[trigger] rest[j], name) by {
            assert(rest[j] == stars[j + 1]);
        }
        lemma_call_stars(idx, rest, name, seen, k - 1, i);
        assert(callables::callable_in_stars(idx, stars, name, seen, Set::empty())
            == callables::callable_in_stars(idx, rest, name, seen, Set::empty()));
    } else {
        assert(leads_to(
            idx,
            callables::named_callable(idx, stars[0], name, seen, Set::empty()),
            stars[0],
            i,
        ));
    }
}

/// A name that is called and that a module neither defines nor imports by name leads to the function
/// of the first module all of whose names it imports that has one.
pub proof fn law_star_imports_bring_functions(idx: IndexView, module: Text, caller: FunctionView, name: Text, k: int, i: int)
    requires
        idx.wf(),
        following::is_name(name),
        idx.lookup(module) is Known,
        has_none(idx.module(module).functions, None, name),
        !idx.module(module).imports.contains_key(name),
        0 <= k < idx.module(module).star_imports.len(),
        forall|j: int| 0 <= j < k ==> lacks(idx, #[trigger] idx.module(module).star_imports[j], name),
        has_first(idx, idx.module(module).star_imports[k], None, name, i),
    ensures
        leads_to(
            idx,
            callables::callable_in(idx, idx.module(module), caller, name),
            idx.module(module).star_imports[k],
            i,
        ),
{
    let info = idx.module(module);
    index::lemma_lookup(idx, module);
    lemma_one(name);
    assert(seq![name].drop_first() =~= Seq::<Text>::empty());
    lemma_first(info.functions, None, name);
    resolve::lemma_unseen(idx, Set::empty(), module);
    lemma_call_stars(idx, info.star_imports, name, Set::empty().insert(module), k, i);
}

/// Whether classes lead on from one to the next: each lacks a method and inherits from the next one,
/// all its bases before that one standing for nothing. No class comes twice.
pub open spec fn is_lineage(idx: IndexView, classes: Seq<(Text, Text)>, method: Text, bases: Seq<int>) -> bool {
    &&& classes.len() > 0
    &&& bases.len() == classes.len() - 1
    &&& classes.no_duplicates()
    &&& forall|k: int| 0 <= k < bases.len() ==> passes_on(idx, #[trigger] classes[k], classes[k + 1], method, bases[k])
}

/// Whether a class lacks a method and has another one as its base `b`, and no class as an earlier one.
pub open spec fn passes_on(idx: IndexView, class: (Text, Text), next: (Text, Text), method: Text, b: int) -> bool {
    idx.lookup(class.0) matches Lookup::Known { module: info, .. } && info.class_named(class.1) matches Some(found) && {
        &&& has_none(info.functions, Some(class.1), method)
        &&& 0 <= b < found.bases.len()
        &&& stands_for(resolve::base_in(idx, info, found.bases[b]), next)
        &&& forall|j: int|
            0 <= j < b ==> (resolve::base_in(idx, info, #[trigger] found.bases[j]) matches Ok(
                BaseView::Unresolved { .. },
            ))
    }
}

/// Whether a base stands for a class.
pub open spec fn stands_for(answer: Result<BaseView, FaultView>, class: (Text, Text)) -> bool {
    match answer {
        Ok(BaseView::Workspace { module, class_name, .. }) => class == (module, class_name),
        Ok(BaseView::External { module, class_name, .. }) => class == (module, class_name),
        _ => false,
    }
}

proof fn lemma_bases(idx: IndexView, info: ModuleView, bases: Seq<Text>, b: int, next: (Text, Text), method: Text, path: Set<(Text, Text)>)
    requires
        idx.wf(),
        0 <= b < bases.len(),
        stands_for(resolve::base_in(idx, info, bases[b]), next),
        forall|j: int|
            0 <= j < b ==> (resolve::base_in(idx, info, #[trigger] bases[j]) matches Ok(BaseView::Unresolved { .. })),
        callables::method_of(idx, next.0, next.1, method, path) matches Ok(Some(_)),
    ensures
        callables::method_of_bases(idx, info, bases, method, path) == callables::method_of(
            idx,
            next.0,
            next.1,
            method,
            path,
        ),
    decreases b,
{
    if b > 0 {
        let rest = bases.drop_first();
        assert(resolve::base_in(idx, info, bases[0]) matches Ok(BaseView::Unresolved { .. }));
        assert forall|j: int| 0 <= j < b - 1 implies (resolve::base_in(idx, info, #[trigger] rest[j]) matches Ok(
            BaseView::Unresolved { .. },
        )) by {
            assert(rest[j] == bases[j + 1]);
        }
        lemma_bases(idx, info, rest, b - 1, next, method, path);
    }
}

proof fn lemma_lineage(idx: IndexView, classes: Seq<(Text, Text)>, method: Text, bases: Seq<int>, i: int, path: Set<(Text, Text)>)
    requires
        idx.wf(),
        is_lineage(idx, classes, method, bases),
        has_first(idx, classes.last().0, Some(classes.last().1), method, i),
        forall|k: int| 0 <= k < classes.len() ==> !path.contains(#[trigger] classes[k]),
    ensures
        leads_to(
            idx,
            callables::method_of(idx, classes[0].0, classes[0].1, method, path),
            classes.last().0,
            i,
        ),
    decreases classes.len(),
{
    let (module, class) = classes[0];
    let info = idx.module(module);
    index::lemma_lookup(idx, module);
    lemma_first(info.functions, Some(class), method);
    if classes.len() > 1 {
        let rest = classes.drop_first();
        let later = bases.drop_first();
        let inner = path.insert(classes[0]);
        assert(passes_on(idx, classes[0], classes[1], method, bases[0]));
        let found = info.class_named(class)->0;
        assert(callables::classes(idx).contains((module, class)));
        callables::lemma_unvisited(idx, path, (module, class));
        assert forall|k: int| 0 <= k < later.len() implies passes_on(
            idx,
            #[trigger] rest[k],
            rest[k + 1],
            method,
            later[k],
        ) by {
            assert(passes_on(idx, classes[k + 1], classes[k + 2], method, bases[k + 1]));
        }
        assert forall|k: int| 0 <= k < rest.len() implies !inner.contains(#[trigger] rest[k]) by {
            assert(rest[k] == classes[k + 1]);
        }
        assert(rest.no_duplicates());
        assert(rest.last() == classes.last());
        lemma_lineage(idx, rest, method, later, i, inner);
        lemma_bases(idx, info, found.bases, bases[0], classes[1], method, inner);
        assert(callables::method_of(idx, module, class, method, path) == callables::method_of_bases(
            idx,
            info,
            found.bases,
            method,
            inner,
        ));
    } else {
        assert(callables::method_of(idx, module, class, method, path) is Ok);
    }
}

/// `self.m` and `cls.m` in a method of a class lead to the method `m` of that class, or, where it has
/// none, to the one that it inherits, through any number of classes.
pub proof fn law_own_methods_are_called(idx: IndexView, module: Text, caller: FunctionView, receiver: Text, method: Text, classes: Seq<(Text, Text)>, bases: Seq<int>, i: int)
    requires
        idx.wf(),
        idx.lookup(module) is Known,
        receiver == "self"@ || receiver == "cls"@,
        following::is_name(method),
        is_lineage(idx, classes, method, bases),
        classes[0].0 == module,
        caller.class_name == Some(classes[0].1),
        has_first(idx, classes.last().0, Some(classes.last().1), method, i),
    ensures
        leads_to(
            idx,
            callables::callable_in(
                idx,
                idx.module(module),
                caller,
                following::dotted(seq![receiver, method]),
            ),
            classes.last().0,
            i,
        ),
{
    index::lemma_lookup(idx, module);
    reveal_strlit("self");
    reveal_strlit("cls");
    assert(following::is_name(receiver));
    lemma_two(receiver, method);
    lemma_lineage(idx, classes, method, bases, i, Set::empty());
}

/// `C.m` leads to the method `m` of class `C` of the module, or to the one that it inherits.
pub proof fn law_methods_are_called_by_their_class(idx: IndexView, module: Text, caller: FunctionView, class: Text, method: Text, classes: Seq<(Text, Text)>, bases: Seq<int>, i: int)
    requires
        idx.wf(),
        idx.lookup(module) is Known,
        following::is_name(class),
        following::is_name(method),
        class != "self"@ && class != "cls"@,
        idx.module(module).has_class(class),
        !idx.module(module).imports.contains_key(class),
        is_lineage(idx, classes, method, bases),
        classes[0] == (module, class),
        has_first(idx, classes.last().0, Some(classes.last().1), method, i),
    ensures
        leads_to(
            idx,
            callables::callable_in(idx, idx.module(module), caller, following::dotted(seq![class, method])),
            classes.last().0,
            i,
        ),
{
    index::lemma_lookup(idx, module);
    lemma_two(class, method);
    lemma_lineage(idx, classes, method, bases, i, Set::empty());
}

/// `h.f`, where `h` is bound to a module, leads to the function `f` of that module.
pub proof fn law_functions_are_called_by_their_module(idx: IndexView, info: ModuleView, caller: FunctionView, head: Text, name: Text, i: int)
    requires
        idx.wf(),
        following::is_name(head),
        following::is_name(name),
        head != "self"@ && head != "cls"@,
        info.imports.contains_key(head),
        has_first(idx, following::module_bound(info.imports[head]), None, name, i),
    ensures
        leads_to(
            idx,
            callables::callable_in(idx, info, caller, following::dotted(seq![head, name])),
            following::module_bound(info.imports[head]),
            i,
        ),
{
    let module = following::module_bound(info.imports[head]);
    lemma_two(head, name);
    following::lemma_bound(info.imports[head]);
    index::lemma_lookup(idx, module);
    lemma_first(idx.module(module).functions, None, name);
}

/// `h.C.m`, where `h` is bound to a module, leads to the method `m` of class `C` of that module, or to
/// the one that it inherits.
pub proof fn law_methods_are_called_through_modules(idx: IndexView, info: ModuleView, caller: FunctionView, head: Text, class: Text, method: Text, classes: Seq<(Text, Text)>, bases: Seq<int>, i: int)
    requires
        idx.wf(),
        following::is_name(head),
        following::is_name(class),
        following::is_name(method),
        info.imports.contains_key(head),
        is_lineage(idx, classes, method, bases),
        classes[0] == (following::module_bound(info.imports[head]), class),
        has_first(idx, classes.last().0, Some(classes.last().1), method, i),
    ensures
        leads_to(
            idx,
            callables::callable_in(idx, info, caller, following::dotted(seq![head, class, method])),
            classes.last().0,
            i,
        ),
{
    let parts = seq![head, class, method];
    assert(following::are_names(parts));
    lemma_parts(parts);
    assert(parts.drop_first() =~= seq![class, method]);
    following::lemma_bound(info.imports[head]);
    lemma_lineage(idx, classes, method, bases, i, Set::empty());
}

/// An imported module that is called leads to the function that its last name is in the module that its
/// other names are.
pub proof fn law_modules_that_are_called_are_functions(idx: IndexView, info: ModuleView, caller: FunctionView, name: Text, package: Text, last: Text, i: int)
    requires
        idx.wf(),
        following::is_name(name),
        following::is_name(last),
        info.imports.contains_key(name),
        info.imports[name] == (BindingView::Module { module: package + seq!['.'] + last }),
        has_first(idx, package, None, last, i),
    ensures
        leads_to(idx, callables::callable_in(idx, info, caller, name), package, i),
{
    lemma_one(name);
    assert(seq![name].drop_first() =~= Seq::<Text>::empty());
    following::lemma_split_behind(package, last);
    index::lemma_lookup(idx, package);
    lemma_first(idx.module(package).functions, None, last);
}

/// `m.f`, where `m` is bound to nothing and is no class of the module, leads to the function `f` of the
/// module of that name.
pub proof fn law_unbound_heads_are_modules(idx: IndexView, info: ModuleView, caller: FunctionView, head: Text, name: Text, i: int)
    requires
        idx.wf(),
        following::is_name(head),
        following::is_name(name),
        head != "self"@ && head != "cls"@,
        !info.imports.contains_key(head),
        !info.has_class(head),
        has_first(idx, head, None, name, i),
    ensures
        leads_to(idx, callables::callable_in(idx, info, caller, following::dotted(seq![head, name])), head, i),
{
    lemma_two(head, name);
    index::lemma_lookup(idx, head);
    lemma_first(idx.module(head).functions, None, name);
}

/// A name that is called and that the module does not have leads nowhere.
pub proof fn law_unknown_calls_lead_nowhere(idx: IndexView, module: Text, caller: FunctionView, name: Text)
    requires
        idx.wf(),
        following::is_name(name),
        idx.lookup(module) is Known,
        lacks(idx, module, name),
    ensures
        callables::callable_in(idx, idx.module(module), caller, name) == Ok::<Option<CallableView>, FaultView>(None),
{
    let info = idx.module(module);
    index::lemma_lookup(idx, module);
    lemma_one(name);
    assert(seq![name].drop_first() =~= Seq::<Text>::empty());
    lemma_first(info.functions, None, name);
    resolve::lemma_unseen(idx, Set::empty(), module);
    assert(info.star_imports =~= Seq::empty());
    assert(callables::callable_in_stars(
        idx,
        info.star_imports,
        name,
        Set::empty().insert(module),
        Set::empty(),
    ) == Ok::<Option<CallableView>, FaultView>(None));
}

} // verus!
