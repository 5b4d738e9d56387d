//! Which function a call or a reference stands for.
use rustc_hash::FxHashSet;
use vstd::prelude::*;

use crate::errors;
use crate::errors::Fault;
use crate::errors::FaultView;
use crate::index;
use crate::index::IndexView;
use crate::index::Lookup;
use crate::index::WorkspaceIndex;
use crate::model;
use crate::model::call_item_from_function;
use crate::model::callable_key;
use crate::model::BaseView;
use crate::model::BindingView;
use crate::model::CallHierarchyItem;
use crate::model::CallItemView;
use crate::model::FunctionInfo;
use crate::model::FunctionView;
use crate::model::ImportBinding;
use crate::model::ModuleInfo;
use crate::model::ModuleView;
use crate::model::ResolvedBase;
use crate::names;
use crate::names::names_insert;
use crate::names::names_new;
use crate::names::names_remove;
use crate::names::pairs_insert;
use crate::names::pairs_new;
use crate::names::pairs_remove;
use crate::resolve;
use crate::resolve::resolve_base;
use crate::text;
use crate::text::cat3;
use crate::text::same;
use crate::text::split_last;
use crate::text::split_text;
use crate::text::Text;

verus! {

/// A function that a call leads to.
#[derive(Debug)]
pub struct ResolvedCallable {
    pub key: String,
    pub item: CallHierarchyItem,
}

/// What a function that a call leads to is.
pub struct CallableView {
    pub key: Text,
    pub item: CallItemView,
}

impl DeepView for ResolvedCallable {
    type V = CallableView;

    open spec fn deep_view(&self) -> CallableView {
        CallableView { key: self.key@, item: self.item.deep_view() }
    }
}

/// The first function of an owner and a name: a method of a class, or of none.
pub open spec fn function_slot(functions: Seq<FunctionView>, owner: Option<Text>, name: Text) -> Option<int>
    decreases functions.len(),
{
    if functions.len() == 0 {
        None
    } else {
        match function_slot(functions.drop_last(), owner, name) {
            Some(i) => Some(i),
            None => if functions.last().class_name == owner && functions.last().name == name {
                Some(functions.len() - 1)
            } else {
                None
            },
        }
    }
}

/// The first function of an owner and a name stands among the functions, and none before it has
/// both.
pub proof fn lemma_function_slot(functions: Seq<FunctionView>, owner: Option<Text>, name: Text)
    ensures
        function_slot(functions, owner, name) matches Some(i) ==> 0 <= i < functions.len()
            && functions[i].class_name == owner && functions[i].name == name,
        forall|k: int|
            0 <= k < functions.len() && (#[trigger] functions[k]).class_name == owner
                && functions[k].name == name ==> function_slot(functions, owner, name) is Some
                && function_slot(functions, owner, name)->0 <= k,
    decreases functions.len(),
{
    if functions.len() > 0 {
        lemma_function_slot(functions.drop_last(), owner, name);
        assert forall|k: int|
            0 <= k < functions.len() && (#[trigger] functions[k]).class_name == owner
                && functions[k].name == name implies function_slot(functions, owner, name) is Some
            && function_slot(functions, owner, name)->0 <= k by {
            if k < functions.len() - 1 {
                assert(functions.drop_last()[k] == functions[k]);
            }
        }
    }
}

/// The function of a module with an owner and a name, as a call leads to it.
pub open spec fn function_in(module: Text, info: ModuleView, external: bool, owner: Option<Text>, name: Text) -> Option<CallableView> {
    match function_slot(info.functions, owner, name) {
        Some(i) => Some(
            CallableView {
                key: model::callable_key_of(module, info.functions[i]),
                item: model::item_of_function(info, info.functions[i], external),
            },
        ),
        None => None,
    }
}

/// The function of this name at the top of a module.
pub open spec fn module_function(idx: IndexView, module: Text, name: Text) -> Result<Option<CallableView>, FaultView> {
    match idx.lookup(module) {
        Lookup::Unknown => Err(FaultView::NeedsModule(module)),
        Lookup::Absent => Ok(None),
        Lookup::Known { module: info, external } => Ok(function_in(module, info, external, None, name)),
    }
}

/// The function that `name` of module `module` is: one of its own, one that it imports, or one of
/// a module all of whose names it imports. The modules in `seen` are passed over; the places in
/// `followed` were on the way here.
pub open spec fn named_callable(idx: IndexView, module: Text, name: Text, seen: Set<Text>, followed: Set<(Text, Text)>) -> Result<Option<CallableView>, FaultView>
    decreases resolve::unfollowed(idx, followed), 0nat, resolve::unseen(idx, seen), 0nat, 0nat,
    when idx.wf()
{
    if seen.contains(module) {
        Ok(None)
    } else {
        match idx.lookup(module) {
            Lookup::Unknown => Err(FaultView::NeedsModule(module)),
            Lookup::Absent => Ok(None),
            Lookup::Known { module: info, external } => match function_in(
                module,
                info,
                external,
                None,
                name,
            ) {
                Some(callable) => Ok(Some(callable)),
                None => {
                    proof {
                        index::lemma_lookup(idx, module);
                    }
                    if info.imports.contains_key(name) {
                        if followed.contains((module, name)) {
                            Err(FaultView::ImportCycle)
                        } else {
                            proof {
                                resolve::lemma_unfollowed(idx, followed, (module, name));
                            }
                            bound_callable(
                                idx,
                                info.imports[name],
                                followed.insert((module, name)),
                            )
                        }
                    } else {
                        proof {
                            resolve::lemma_unseen(idx, seen, module);
                        }
                        callable_in_stars(
                            idx,
                            info.star_imports,
                            name,
                            seen.insert(module),
                            followed,
                        )
                    }
                },
            },
        }
    }
}

/// The function that the first of these modules has which has one.
pub open spec fn callable_in_stars(idx: IndexView, modules: Seq<Text>, name: Text, seen: Set<Text>, followed: Set<(Text, Text)>) -> Result<Option<CallableView>, FaultView>
    decreases resolve::unfollowed(idx, followed), 0nat, resolve::unseen(idx, seen), 1nat, modules.len(),
    when idx.wf()
{
    if modules.len() == 0 {
        Ok(None)
    } else {
        match named_callable(idx, modules[0], name, seen, followed) {
            Ok(None) => callable_in_stars(idx, modules.drop_first(), name, seen, followed),
            found => found,
        }
    }
}

/// The function that a binding leads to.
pub open spec fn bound_callable(idx: IndexView, binding: BindingView, followed: Set<(Text, Text)>) -> Result<Option<CallableView>, FaultView>
    decreases resolve::unfollowed(idx, followed), 1nat, 0nat, 0nat, 0nat,
    when idx.wf()
{
    match binding {
        BindingView::Module { module } => last_function(idx, module),
        BindingView::ImportedName { module, name } => match named_callable(
            idx,
            module,
            name,
            Set::empty(),
            followed,
        ) {
            Ok(None) => last_function(idx, module + "."@ + name),
            found => found,
        },
    }
}

/// The function that a dotted path names whose last part is the function.
pub open spec fn last_function(idx: IndexView, path: Text) -> Result<Option<CallableView>, FaultView> {
    match text::split_at_last(path, '.') {
        Some((module, name)) => module_function(idx, module, name),
        None => Ok(None),
    }
}

/// The classes of the modules at hand.
pub open spec fn classes(idx: IndexView) -> Set<(Text, Text)> {
    Set::new(|p: (Text, Text)| idx.known().contains(p.0) && idx.module(p.0).has_class(p.1))
}

/// How many of those classes have not been visited.
pub open spec fn unvisited(idx: IndexView, path: Set<(Text, Text)>) -> nat {
    classes(idx).difference(path).len()
}

/// The classes of the modules at hand are finitely many.
pub proof fn lemma_classes_finite(idx: IndexView)
    requires
        idx.wf(),
    ensures
        classes(idx).finite(),
{
    let seconds = |a: Text| idx.module(a).classes.map_values(|c: model::ClassView| c.name).to_set();
    assert forall|a: Text| idx.known().contains(a) implies (#[trigger] seconds(a)).finite() by {
        vstd::seq_lib::seq_to_set_is_finite(
            idx.module(a).classes.map_values(|c: model::ClassView| c.name),
        );
    }
    index::lemma_lookup(idx, Seq::empty());
    resolve::lemma_pairs_finite(idx.known(), seconds);
    let all = Set::new(|p: (Text, Text)| idx.known().contains(p.0) && seconds(p.0).contains(p.1));
    assert forall|p: (Text, Text)| classes(idx).contains(p) implies all.contains(p) by {
        let module = idx.module(p.0);
        model::lemma_class_slot(module.classes, p.1);
        let slot = model::class_slot(module.classes, p.1)->0;
        assert(module.classes.map_values(|c: model::ClassView| c.name)[slot] == p.1);
    }
    vstd::set_lib::lemma_len_subset(classes(idx), all);
}

/// Visiting one more class leaves fewer.
pub proof fn lemma_unvisited(idx: IndexView, path: Set<(Text, Text)>, class: (Text, Text))
    requires
        idx.wf(),
        classes(idx).contains(class),
        !path.contains(class),
    ensures
        unvisited(idx, path.insert(class)) < unvisited(idx, path),
{
    lemma_classes_finite(idx);
    let left = classes(idx).difference(path);
    assert(left.contains(class));
    assert(classes(idx).difference(path.insert(class)) =~= left.remove(class));
}

/// The method of this name of a class: its own, or that of the first base that has one. The
/// classes in `path` are being searched already.
pub open spec fn method_of(idx: IndexView, module: Text, class: Text, name: Text, path: Set<(Text, Text)>) -> Result<Option<CallableView>, FaultView>
    decreases unvisited(idx, path), 0nat, 0nat,
    when idx.wf()
{
    if path.contains((module, class)) {
        Ok(None)
    } else {
        match idx.lookup(module) {
            Lookup::Unknown => Err(FaultView::NeedsModule(module)),
            Lookup::Absent => Ok(None),
            Lookup::Known { module: info, external } => match function_in(
                module,
                info,
                external,
                Some(class),
                name,
            ) {
                Some(callable) => Ok(Some(callable)),
                None => match info.class_named(class) {
                    Some(found) => {
                        proof {
                            index::lemma_lookup(idx, module);
                            lemma_unvisited(idx, path, (module, class));
                        }
                        method_of_bases(
                            idx,
                            info,
                            found.bases,
                            name,
                            path.insert((module, class)),
                        )
                    },
                    None => Ok(None),
                },
            },
        }
    }
}

/// The method of this name of the first of these bases that has one.
pub open spec fn method_of_bases(idx: IndexView, info: ModuleView, bases: Seq<Text>, name: Text, path: Set<(Text, Text)>) -> Result<Option<CallableView>, FaultView>
    decreases unvisited(idx, path), 1nat, bases.len(),
    when idx.wf()
{
    if bases.len() == 0 {
        Ok(None)
    } else {
        let here = match resolve::base_in(idx, info, bases[0]) {
            Err(fault) => Err(fault),
            Ok(BaseView::Workspace { module, class_name, .. }) => method_of(
                idx,
                module,
                class_name,
                name,
                path,
            ),
            Ok(BaseView::External { module, class_name, .. }) => method_of(
                idx,
                module,
                class_name,
                name,
                path,
            ),
            Ok(BaseView::Unresolved { .. }) => Ok(None),
        };
        match here {
            Ok(None) => method_of_bases(idx, info, bases.drop_first(), name, path),
            found => found,
        }
    }
}

/// The function that a path behind a module names: one of the module, or a method of one of its
/// classes.
pub open spec fn callable_at(idx: IndexView, module: Text, tail: Seq<Text>) -> Result<Option<CallableView>, FaultView> {
    if tail.len() == 1 {
        module_function(idx, module, tail[0])
    } else if tail.len() == 2 {
        method_of(idx, module, tail[0], tail[1], Set::empty())
    } else {
        Ok(None)
    }
}

/// The function that a call or reference in a function of a module leads to.
pub open spec fn callable_in(idx: IndexView, module: ModuleView, function: FunctionView, raw: Text) -> Result<Option<CallableView>, FaultView> {
    let parts = text::split(raw, Some('.'));
    let head = parts[0];
    let tail = parts.drop_first();
    if tail.len() == 0 {
        if module.imports.contains_key(head) {
            bound_callable(idx, module.imports[head], Set::empty())
        } else {
            named_callable(idx, module.module_name, head, Set::empty(), Set::empty())
        }
    } else if (head == "self"@ || head == "cls"@) && tail.len() == 1 && function.class_name is Some {
        method_of(idx, module.module_name, function.class_name->0, tail[0], Set::empty())
    } else if module.imports.contains_key(head) {
        callable_at(idx, resolve::bound_module(module.imports[head]), tail)
    } else if tail.len() == 1 && module.has_class(head) {
        method_of(idx, module.module_name, head, tail[0], Set::empty())
    } else {
        callable_at(idx, head, tail)
    }
}

/// Whether a function that a call leads to is function `i` of a module at hand.
pub open spec fn stands_at(idx: IndexView, callable: CallableView, module: Text, i: int) -> bool {
    match idx.lookup(module) {
        Lookup::Known { module: info, external } => 0 <= i < info.functions.len() && callable.key
            == model::callable_key_of(module, info.functions[i]) && callable.item
            == model::item_of_function(info, info.functions[i], external),
        _ => false,
    }
}

/// Whether a call that leads to a function leads to one of a module at hand.
pub open spec fn leads_home(idx: IndexView, answer: Result<Option<CallableView>, FaultView>) -> bool {
    match answer {
        Ok(Some(callable)) => exists|module: Text, i: int| stands_at(idx, callable, module, i),
        _ => true,
    }
}

proof fn lemma_function_leads_home(idx: IndexView, module: Text, owner: Option<Text>, name: Text)
    ensures
        idx.lookup(module) matches Lookup::Known { module: info, external } ==> leads_home(
            idx,
            Ok(function_in(module, info, external, owner, name)),
        ),
{
    if let Lookup::Known { module: info, external } = idx.lookup(module) {
        lemma_function_slot(info.functions, owner, name);
        if let Some(callable) = function_in(module, info, external, owner, name) {
            let i = function_slot(info.functions, owner, name)->0;
            assert(stands_at(idx, callable, module, i));
        }
    }
}

proof fn lemma_last_function_leads_home(idx: IndexView, path: Text)
    ensures
        leads_home(idx, last_function(idx, path)),
{
    if let Some((module, name)) = text::split_at_last(path, '.') {
        lemma_function_leads_home(idx, module, None, name);
    }
}

proof fn lemma_named_leads_home(idx: IndexView, module: Text, name: Text, seen: Set<Text>, followed: Set<(Text, Text)>)
    requires
        idx.wf(),
    ensures
        leads_home(idx, named_callable(idx, module, name, seen, followed)),
    decreases resolve::unfollowed(idx, followed), 0nat, resolve::unseen(idx, seen), 0nat, 0nat,
{
    index::lemma_lookup(idx, module);
    lemma_function_leads_home(idx, module, None, name);
    if !seen.contains(module) {
        if let Lookup::Known { module: info, external } = idx.lookup(module) {
            if info.imports.contains_key(name) {
                if !followed.contains((module, name)) {
                    resolve::lemma_unfollowed(idx, followed, (module, name));
                    lemma_bound_leads_home(
                        idx,
                        info.imports[name],
                        followed.insert((module, name)),
                    );
                }
            } else {
                resolve::lemma_unseen(idx, seen, module);
                lemma_stars_lead_home(
                    idx,
                    info.star_imports,
                    name,
                    seen.insert(module),
                    followed,
                );
            }
        }
    }
}

proof fn lemma_stars_lead_home(idx: IndexView, modules: Seq<Text>, name: Text, seen: Set<Text>, followed: Set<(Text, Text)>)
    requires
        idx.wf(),
    ensures
        leads_home(idx, callable_in_stars(idx, modules, name, seen, followed)),
    decreases resolve::unfollowed(idx, followed), 0nat, resolve::unseen(idx, seen), 1nat, modules.len(),
{
    if modules.len() > 0 {
        lemma_named_leads_home(idx, modules[0], name, seen, followed);
        lemma_stars_lead_home(idx, modules.drop_first(), name, seen, followed);
    }
}

proof fn lemma_bound_leads_home(idx: IndexView, binding: BindingView, followed: Set<(Text, Text)>)
    requires
        idx.wf(),
    ensures
        leads_home(idx, bound_callable(idx, binding, followed)),
    decreases resolve::unfollowed(idx, followed), 1nat, 0nat, 0nat, 0nat,
{
    match binding {
        BindingView::Module { module } => {
            lemma_last_function_leads_home(idx, module);
        },
        BindingView::ImportedName { module, name } => {
            lemma_named_leads_home(idx, module, name, Set::empty(), followed);
            lemma_last_function_leads_home(idx, module + "."@ + name);
        },
    }
}

proof fn lemma_method_leads_home(idx: IndexView, module: Text, class: Text, name: Text, path: Set<(Text, Text)>)
    requires
        idx.wf(),
    ensures
        leads_home(idx, method_of(idx, module, class, name, path)),
    decreases unvisited(idx, path), 0nat, 0nat,
{
    index::lemma_lookup(idx, module);
    lemma_function_leads_home(idx, module, Some(class), name);
    if !path.contains((module, class)) {
        if let Lookup::Known { module: info, external } = idx.lookup(module) {
            if let Some(found) = info.class_named(class) {
                lemma_unvisited(idx, path, (module, class));
                lemma_bases_lead_home(
                    idx,
                    info,
                    found.bases,
                    name,
                    path.insert((module, class)),
                );
            }
        }
    }
}

proof fn lemma_bases_lead_home(idx: IndexView, info: ModuleView, bases: Seq<Text>, name: Text, path: Set<(Text, Text)>)
    requires
        idx.wf(),
    ensures
        leads_home(idx, method_of_bases(idx, info, bases, name, path)),
    decreases unvisited(idx, path), 1nat, bases.len(),
{
    if bases.len() > 0 {
        match resolve::base_in(idx, info, bases[0]) {
            Ok(BaseView::Workspace { module, class_name, .. }) => {
                lemma_method_leads_home(idx, module, class_name, name, path);
            },
            Ok(BaseView::External { module, class_name, .. }) => {
                lemma_method_leads_home(idx, module, class_name, name, path);
            },
            _ => {},
        }
        lemma_bases_lead_home(idx, info, bases.drop_first(), name, path);
    }
}

/// A call that leads to a function leads to one that stands in a module at hand, under that
/// module's key and at that function's place.
pub proof fn law_calls_lead_to_functions_at_hand(idx: IndexView, module: ModuleView, function: FunctionView, raw: Text)
    requires
        idx.wf(),
    ensures
        leads_home(idx, callable_in(idx, module, function, raw)),
{
    let parts = text::split(raw, Some('.'));
    let head = parts[0];
    let tail = parts.drop_first();
    lemma_bound_leads_home(idx, module.imports[head], Set::empty());
    lemma_named_leads_home(idx, module.module_name, head, Set::empty(), Set::empty());
    let bound = resolve::bound_module(module.imports[head]);
    if tail.len() == 1 {
        lemma_method_leads_home(idx, module.module_name, head, tail[0], Set::empty());
        if let Some(class) = function.class_name {
            lemma_method_leads_home(idx, module.module_name, class, tail[0], Set::empty());
        }
        lemma_function_leads_home(idx, bound, None, tail[0]);
        lemma_function_leads_home(idx, head, None, tail[0]);
    }
    if tail.len() == 2 {
        lemma_method_leads_home(idx, bound, tail[0], tail[1], Set::empty());
        lemma_method_leads_home(idx, head, tail[0], tail[1], Set::empty());
    }
}

/// The first function of an owner and a name.
fn find_function<'a>(info: &'a ModuleInfo, owner: Option<&str>, name: &str) -> (function: Option<&'a FunctionInfo>)
    ensures
        match (
            function,
            function_slot(
                info.deep_view().functions,
                match owner {
                    Some(class) => Some(class@),
                    None => None,
                },
                name@,
            ),
        ) {
            (Some(found), Some(i)) => found.deep_view() == info.deep_view().functions[i],
            (None, None) => true,
            _ => false,
        },
{
    let ghost all = info.functions.deep_view();
    let ghost wanted: Option<Text> = match owner {
        Some(class) => Some(class@),
        None => None,
    };
    let mut i: usize = 0;
    proof {
        lemma_function_slot(all, wanted, name@);
    }
    while i < info.functions.len()
        invariant
            i <= info.functions@.len(),
            all == info.functions.deep_view(),
            wanted == (match owner {
                Some(class) => Some(class@),
                None => None::<Text>,
            }),
            function_slot(all, wanted, name@) matches Some(slot) ==> i <= slot < all.len()
                && all[slot].class_name == wanted && all[slot].name == name@,
            forall|k: int|
                0 <= k < all.len() && (#[trigger] all[k]).class_name == wanted && all[k].name == name@
                    ==> function_slot(all, wanted, name@) is Some && function_slot(
                    all,
                    wanted,
                    name@,
                )->0 <= k,
        decreases info.functions@.len() - i,
    {
        let function = &info.functions[i];
        assert(all[i as int] == function.deep_view());
        let owned = match (&function.class_name, owner) {
            (Some(class), Some(expected)) => same(class.as_str(), expected),
            (None, None) => true,
            _ => false,
        };
        if owned && same(function.name.as_str(), name) {
            return Some(function);
        }
        i = i + 1;
    }
    None
}

/// The function of a module with an owner and a name, as a call leads to it.
fn function_of(module: &str, info: &ModuleInfo, external: bool, owner: Option<&str>, name: &str) -> (callable: Option<ResolvedCallable>)
    ensures
        callable.deep_view() == function_in(
            module@,
            info.deep_view(),
            external,
            match owner {
                Some(class) => Some(class@),
                None => None,
            },
            name@,
        ),
{
    match find_function(info, owner, name) {
        Some(function) => Some(
            ResolvedCallable {
                key: callable_key(module, function),
                item: call_item_from_function(info, function, external),
            },
        ),
        None => None,
    }
}

/// The function of this name at the top of a module.
fn resolve_module_function(index: &WorkspaceIndex, module: &str, name: &str) -> (answer: Result<Option<ResolvedCallable>, Fault>)
    requires
        index.wf(),
    ensures
        errors::follows(answer, module_function(index@, module@, name@)),
{
    match index.get_module(module) {
        Err(fault) => Err(fault),
        Ok(None) => Ok(None),
        Ok(Some((info, external))) => Ok(function_of(module, info, external, None, name)),
    }
}

/// The function that a dotted path names whose last part is the function.
fn resolve_last_function(index: &WorkspaceIndex, path: &str) -> (answer: Result<Option<ResolvedCallable>, Fault>)
    requires
        index.wf(),
    ensures
        errors::follows(answer, last_function(index@, path@)),
{
    match split_last(path, '.') {
        Some((module, name)) => resolve_module_function(index, module.as_str(), name.as_str()),
        None => Ok(None),
    }
}

/// The function that `name` of module `module` is.
fn resolve_named_callable(index: &WorkspaceIndex, module: &str, name: &str, seen: &mut FxHashSet<String>, followed: &mut FxHashSet<(String, String)>) -> (answer: Result<Option<ResolvedCallable>, Fault>)
    requires
        index.wf(),
    ensures
        errors::follows(
            answer,
            named_callable(
                index@,
                module@,
                name@,
                names::names_of(*old(seen)),
                names::pairs_of(*old(followed)),
            ),
        ),
        answer is Ok ==> names::names_of(*final(seen)) == names::names_of(*old(seen)),
        answer is Ok ==> names::pairs_of(*final(followed)) == names::pairs_of(*old(followed)),
    decreases
        resolve::unfollowed(index@, names::pairs_of(*old(followed))),
        0nat,
        resolve::unseen(index@, names::names_of(*old(seen))),
        0nat,
        0nat,
{
    let ghost idx = index@;
    let ghost before = names::names_of(*seen);
    let ghost trail = names::pairs_of(*followed);
    proof {
        index.lemma_view_wf();
        index::lemma_lookup(idx, module@);
    }
    if !names_insert(seen, module.to_owned()) {
        assert(before.insert(module@) =~= before);
        return Ok(None);
    }
    assert(before.insert(module@).remove(module@) =~= before);
    let (info, external) = match index.get_module(module) {
        Err(fault) => {
            return Err(fault);
        },
        Ok(None) => {
            names_remove(seen, module);
            return Ok(None);
        },
        Ok(Some(found)) => found,
    };
    if let Some(callable) = function_of(module, info, external, None, name) {
        names_remove(seen, module);
        return Ok(Some(callable));
    }
    if let Some(binding) = info.binding(name) {
        names_remove(seen, module);
        let site = (module.to_owned(), name.to_owned());
        let again = (module.to_owned(), name.to_owned());
        let ghost place = (module@, name@);
        if !pairs_insert(followed, site) {
            return Err(Fault::ImportCycle);
        }
        proof {
            resolve::lemma_unfollowed(idx, trail, place);
        }
        let answer = resolve_callable_import_binding(index, binding, followed);
        pairs_remove(followed, &again);
        assert(trail.insert(place).remove(place) =~= trail);
        return answer;
    }
    proof {
        resolve::lemma_unseen(idx, before, module@);
    }
    let ghost stars = info.star_imports.deep_view();
    let mut i: usize = 0;
    assert(stars.skip(0) =~= stars);
    while i < info.star_imports.len()
        invariant
            i <= info.star_imports@.len(),
            index.wf(),
            idx == index@,
            idx.wf(),
            stars == info.star_imports.deep_view(),
            before == names::names_of(*old(seen)),
            trail == names::pairs_of(*old(followed)),
            names::names_of(*seen) == before.insert(module@),
            names::pairs_of(*followed) == trail,
            before.insert(module@).remove(module@) == before,
            resolve::unseen(idx, before.insert(module@)) < resolve::unseen(idx, before),
            callable_in_stars(idx, stars.skip(i as int), name@, before.insert(module@), trail)
                == callable_in_stars(idx, stars, name@, before.insert(module@), trail),
            named_callable(idx, module@, name@, before, trail) == callable_in_stars(
                idx,
                stars,
                name@,
                before.insert(module@),
                trail,
            ),
        decreases info.star_imports@.len() - i,
    {
        assert(stars.skip(i as int)[0] == info.star_imports@[i as int]@);
        assert(stars.skip(i as int).drop_first() =~= stars.skip(i as int + 1));
        match resolve_named_callable(
            index,
            info.star_imports[i].as_str(),
            name,
            seen,
            followed,
        ) {
            Ok(None) => {},
            Ok(Some(callable)) => {
                names_remove(seen, module);
                return Ok(Some(callable));
            },
            Err(fault) => {
                return Err(fault);
            },
        }
        i = i + 1;
    }
    names_remove(seen, module);
    Ok(None)
}

/// The function that a binding leads to.
fn resolve_callable_import_binding(index: &WorkspaceIndex, binding: &ImportBinding, followed: &mut FxHashSet<(String, String)>) -> (answer: Result<Option<ResolvedCallable>, Fault>)
    requires
        index.wf(),
    ensures
        errors::follows(
            answer,
            bound_callable(index@, binding.deep_view(), names::pairs_of(*old(followed))),
        ),
        answer is Ok ==> names::pairs_of(*final(followed)) == names::pairs_of(*old(followed)),
    decreases
        resolve::unfollowed(index@, names::pairs_of(*old(followed))),
        1nat,
        0nat,
        0nat,
        0nat,
{
    proof {
        index.lemma_view_wf();
    }
    match binding {
        ImportBinding::Module { module } => resolve_last_function(index, module.as_str()),
        ImportBinding::ImportedName { module, name } => {
            let mut seen = names_new();
            match resolve_named_callable(
                index,
                module.as_str(),
                name.as_str(),
                &mut seen,
                followed,
            ) {
                Ok(None) => {
                    let path = cat3(module.as_str(), ".", name.as_str());
                    resolve_last_function(index, path.as_str())
                },
                found => found,
            }
        },
    }
}

/// The method of this name of a class or of the first base that has one.
fn resolve_method_in_class_hierarchy(index: &WorkspaceIndex, module: &str, class: &str, name: &str, path: &mut FxHashSet<(String, String)>) -> (answer: Result<Option<ResolvedCallable>, Fault>)
    requires
        index.wf(),
    ensures
        errors::follows(
            answer,
            method_of(index@, module@, class@, name@, names::pairs_of(*old(path))),
        ),
        answer is Ok ==> names::pairs_of(*final(path)) == names::pairs_of(*old(path)),
    decreases unvisited(index@, names::pairs_of(*old(path))), 0nat, 0nat,
{
    let ghost idx = index@;
    let ghost before = names::pairs_of(*path);
    let ghost place = (module@, class@);
    proof {
        index.lemma_view_wf();
        index::lemma_lookup(idx, module@);
    }
    let again = (module.to_owned(), class.to_owned());
    if !pairs_insert(path, (module.to_owned(), class.to_owned())) {
        assert(before.insert(place) =~= before);
        return Ok(None);
    }
    assert(before.insert(place).remove(place) =~= before);
    let (info, external) = match index.get_module(module) {
        Err(fault) => {
            return Err(fault);
        },
        Ok(None) => {
            pairs_remove(path, &again);
            return Ok(None);
        },
        Ok(Some(found)) => found,
    };
    if let Some(callable) = function_of(module, info, external, Some(class), name) {
        pairs_remove(path, &again);
        return Ok(Some(callable));
    }
    let found = match info.class_named(class) {
        Some(found) => found,
        None => {
            pairs_remove(path, &again);
            return Ok(None);
        },
    };
    proof {
        lemma_unvisited(idx, before, place);
    }
    let ghost inner = before.insert(place);
    let ghost bases = found.bases.deep_view();
    let ghost viewed = info.deep_view();
    let mut i: usize = 0;
    assert(bases.skip(0) =~= bases);
    while i < found.bases.len()
        invariant
            i <= found.bases@.len(),
            index.wf(),
            info.wf(),
            idx == index@,
            idx.wf(),
            viewed == info.deep_view(),
            bases == found.bases.deep_view(),
            before == names::pairs_of(*old(path)),
            inner == before.insert(place),
            again.deep_view() == place,
            names::pairs_of(*path) == inner,
            inner.remove(place) == before,
            unvisited(idx, inner) < unvisited(idx, before),
            method_of_bases(idx, viewed, bases.skip(i as int), name@, inner) == method_of_bases(
                idx,
                viewed,
                bases,
                name@,
                inner,
            ),
            method_of(idx, module@, class@, name@, before) == method_of_bases(
                idx,
                viewed,
                bases,
                name@,
                inner,
            ),
        decreases found.bases@.len() - i,
    {
        assert(bases.skip(i as int)[0] == found.bases@[i as int]@);
        assert(bases.skip(i as int).drop_first() =~= bases.skip(i as int + 1));
        let target = match resolve_base(index, info, found.bases[i].as_str()) {
            Err(fault) => {
                return Err(fault);
            },
            Ok(ResolvedBase::Workspace { module: base_module, class_name, .. }) => Some(
                (base_module, class_name),
            ),
            Ok(ResolvedBase::External { module: base_module, class_name, .. }) => Some(
                (base_module, class_name),
            ),
            Ok(ResolvedBase::Unresolved { .. }) => None,
        };
        if let Some((base_module, class_name)) = target {
            match resolve_method_in_class_hierarchy(
                index,
                base_module.as_str(),
                class_name.as_str(),
                name,
                path,
            ) {
                Ok(None) => {},
                Ok(Some(callable)) => {
                    pairs_remove(path, &again);
                    return Ok(Some(callable));
                },
                Err(fault) => {
                    return Err(fault);
                },
            }
        }
        i = i + 1;
    }
    pairs_remove(path, &again);
    Ok(None)
}

/// The function that a path behind a module names.
fn resolve_callable_module_path(index: &WorkspaceIndex, module: &str, tail: &Vec<String>) -> (answer: Result<Option<ResolvedCallable>, Fault>)
    requires
        index.wf(),
    ensures
        errors::follows(answer, callable_at(index@, module@, tail.deep_view())),
{
    if tail.len() == 1 {
        assert(tail.deep_view()[0] == tail@[0]@);
        resolve_module_function(index, module, tail[0].as_str())
    } else if tail.len() == 2 {
        assert(tail.deep_view()[0] == tail@[0]@);
        assert(tail.deep_view()[1] == tail@[1]@);
        let mut path = pairs_new();
        resolve_method_in_class_hierarchy(
            index,
            module,
            tail[0].as_str(),
            tail[1].as_str(),
            &mut path,
        )
    } else {
        Ok(None)
    }
}

/// The function that a call or reference in a function of a module leads to.
pub fn resolve_callable(index: &WorkspaceIndex, module: &ModuleInfo, function: &FunctionInfo, raw_target: &str) -> (answer: Result<Option<ResolvedCallable>, Fault>)
    requires
        index.wf(),
        module.wf(),
    ensures
        errors::follows(
            answer,
            callable_in(index@, module.deep_view(), function.deep_view(), raw_target@),
        ),
{
    let mut tail = split_text(raw_target, Some('.'));
    let ghost all = tail.deep_view();
    let head = tail.remove(0);
    assert(head@ == all[0]);
    assert(tail.deep_view() =~= all.drop_first());
    if tail.len() == 0 {
        let mut followed = pairs_new();
        if let Some(binding) = module.binding(head.as_str()) {
            return resolve_callable_import_binding(index, binding, &mut followed);
        }
        let mut seen = names_new();
        return resolve_named_callable(
            index,
            module.module_name.as_str(),
            head.as_str(),
            &mut seen,
            &mut followed,
        );
    }
    assert(tail.deep_view()[0] == tail@[0]@);
    let mut path = pairs_new();
    if (same(head.as_str(), "self") || same(head.as_str(), "cls")) && tail.len() == 1 {
        if let Some(class) = &function.class_name {
            return resolve_method_in_class_hierarchy(
                index,
                module.module_name.as_str(),
                class.as_str(),
                tail[0].as_str(),
                &mut path,
            );
        }
    }
    if let Some(binding) = module.binding(head.as_str()) {
        let bound = match binding {
            ImportBinding::Module { module: target } => target.clone(),
            ImportBinding::ImportedName { module: target, name } => cat3(
                target.as_str(),
                ".",
                name.as_str(),
            ),
        };
        return resolve_callable_module_path(index, bound.as_str(), &tail);
    }
    if tail.len() == 1 && module.has_class(head.as_str()) {
        return resolve_method_in_class_hierarchy(
            index,
            module.module_name.as_str(),
            head.as_str(),
            tail[0].as_str(),
            &mut path,
        );
    }
    resolve_callable_module_path(index, head.as_str(), &tail)
}

} // verus!
