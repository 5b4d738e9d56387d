//! Setting up an index: empty, to be filled on demand, or with all modules of a workspace.
use vstd::prelude::*;

use crate::index;
use crate::index::IndexView;
use crate::index::WorkspaceIndex;
use crate::model::ModuleInfo;
use crate::model::ModuleView;
use crate::paths;
use crate::paths::module_path_candidates;
use crate::paths::plain_path;
use crate::text::Text;

verus! {

/// The index, with one more module of the workspace. A later module of a name takes the place of
/// an earlier one.
pub open spec fn with_module(idx: IndexView, module: ModuleView) -> IndexView {
    IndexView {
        workspace: idx.workspace.insert(module.module_name, module),
        order: if idx.workspace.contains_key(module.module_name) {
            idx.order
        } else {
            idx.order.push(module.module_name)
        },
        by_path: idx.by_path.insert(paths::plain(module.path), module.module_name),
        ..idx
    }
}

/// The index, with more modules of the workspace.
pub open spec fn with_modules(idx: IndexView, modules: Seq<ModuleView>) -> IndexView
    decreases modules.len(),
{
    if modules.len() == 0 {
        idx
    } else {
        with_module(with_modules(idx, modules.drop_last()), modules.last())
    }
}

/// The index of a workspace with these modules, before it is linked.
pub open spec fn workspace_index(root: Text, import_roots: Seq<Text>, modules: Seq<ModuleView>) -> IndexView {
    with_modules(index::empty_index(root, import_roots), modules)
}

/// An index whose modules are read on demand.
pub fn build_lazy_hierarchy_index(root: String, import_roots: Vec<String>) -> (index: WorkspaceIndex)
    ensures
        index.wf(),
        index@ == index::empty_index(root@, import_roots.deep_view()),
{
    WorkspaceIndex::new(root, import_roots)
}

/// Whether all modules hold together.
pub open spec fn all_wf(modules: Seq<ModuleInfo>) -> bool {
    forall|i: int| 0 <= i < modules.len() ==> (#[trigger] modules[i]).wf()
}

/// The index of a workspace with these modules, before it is linked.
pub fn build_workspace_index(root: String, import_roots: Vec<String>, modules: Vec<ModuleInfo>) -> (index: WorkspaceIndex)
    requires
        all_wf(modules@),
    ensures
        index.wf(),
        index@ == workspace_index(root@, import_roots.deep_view(), modules.deep_view()),
{
    let ghost all = modules.deep_view();
    let ghost held = modules@;
    let ghost start = index::empty_index(root@, import_roots.deep_view());
    let mut index = WorkspaceIndex::new(root, import_roots);
    let mut rest = modules;
    let total = rest.len();
    let mut i: usize = 0;
    while rest.len() > 0
        invariant
            i + rest@.len() == total == held.len(),
            all.len() == held.len(),
            all_wf(held),
            forall|k: int| 0 <= k < held.len() ==> #[trigger] all[k] == held[k].deep_view(),
            forall|k: int| 0 <= k < rest@.len() ==> #[trigger] rest@[k] == held[i + k],
            index.wf(),
            index@ == with_modules(start, all.take(i as int)),
        decreases rest@.len(),
    {
        let ghost before = rest@;
        let ghost now = index@;
        let module = rest.remove(0);
        assert(module == before[0]);
        assert(module == held[i as int]);
        assert(all[i as int] == module.deep_view());
        assert forall|k: int| 0 <= k < rest@.len() implies #[trigger] rest@[k] == held[i + 1 + k] by {
            assert(rest@[k] == before[k + 1]);
        }
        let ghost viewed = module.deep_view();
        let name = module.module_name.clone();
        index.modules_by_path.insert(plain_path(module.path.as_str()), name.clone());
        assert(index@.by_path =~= now.by_path.insert(paths::plain(viewed.path), viewed.module_name));
        index.modules_by_name.insert(name, module);
        assert(index@.workspace =~= now.workspace.insert(viewed.module_name, viewed));
        assert(index@ =~= with_module(now, viewed));
        assert(all.take(i as int + 1).drop_last() =~= all.take(i as int));
        i = i + 1;
    }
    assert(all.take(i as int) =~= all);
    index
}

/// Sets up the full index where there is none yet.
pub fn ensure_full_build(full: &mut Option<WorkspaceIndex>, root: &str, import_roots: Vec<String>, modules: Vec<ModuleInfo>)
    requires
        all_wf(modules@),
        *old(full) matches Some(index) ==> index.wf(),
    ensures
        match (*old(full), *final(full)) {
            (Some(before), Some(after)) => after == before && after.wf(),
            (None, Some(after)) => after.wf() && after@ == workspace_index(
                root@,
                import_roots.deep_view(),
                modules.deep_view(),
            ),
            (_, None) => false,
        },
{
    if full.is_none() {
        *full = Some(build_workspace_index(root.to_owned(), import_roots, modules));
    }
}

/// The files in which a module can be, the first one first: below each import root in turn.
pub open spec fn external_paths(import_roots: Seq<Text>, module_name: Text) -> Seq<Text>
    decreases import_roots.len(),
{
    if import_roots.len() == 0 {
        Seq::empty()
    } else {
        external_paths(import_roots.drop_last(), module_name) + paths::module_paths(
            import_roots.last(),
            module_name,
        )
    }
}

/// Where a module that is needed can be: the files of the workspace, and those outside it. The
/// first file of the workspace that is there is read; where there is none, or it cannot be read,
/// the first file outside.
pub fn module_search_paths(index: &WorkspaceIndex, module_name: &str) -> (found: (
    Vec<String>,
    Vec<String>,
))
    ensures
        found.0.deep_view() == paths::module_paths(index@.root, module_name@),
        found.1.deep_view() == external_paths(index@.import_roots, module_name@),
{
    let ghost roots = index.import_roots.deep_view();
    let inside = module_path_candidates(index.root.as_str(), module_name);
    let mut outside: Vec<String> = Vec::new();
    let mut i: usize = 0;
    assert(outside.deep_view() =~= Seq::empty());
    while i < index.import_roots.len()
        invariant
            i <= index.import_roots@.len(),
            roots == index.import_roots.deep_view(),
            outside.deep_view() == external_paths(roots.take(i as int), module_name@),
        decreases index.import_roots@.len() - i,
    {
        let ghost before = outside.deep_view();
        assert(roots.take(i as int + 1).drop_last() =~= roots.take(i as int));
        assert(roots.take(i as int + 1).last() == index.import_roots@[i as int]@);
        let mut more = module_path_candidates(index.import_roots[i].as_str(), module_name);
        let ghost tail = more.deep_view();
        outside.append(&mut more);
        assert(outside.deep_view() =~= before + tail);
        i = i + 1;
    }
    assert(roots.take(i as int) =~= roots);
    (inside, outside)
}

/// The index once a module that was looked for has been found, or not. One of the workspace comes
/// before one from outside.
pub open spec fn supplied(idx: IndexView, name: Text, inside: Option<ModuleView>, outside: Option<ModuleView>) -> IndexView {
    match (inside, outside) {
        (Some(module), _) => IndexView {
            lazy: idx.lazy.insert(name, module),
            lazy_paths: idx.lazy_paths.insert(paths::plain(module.path), name),
            ..idx
        },
        (None, Some(module)) => IndexView { external: idx.external.insert(name, module), ..idx },
        (None, None) => IndexView { absent: idx.absent.insert(name), ..idx },
    }
}

/// Whether a module, where there is one, holds together and has this name.
pub open spec fn goes_by(module: Option<ModuleInfo>, name: Text) -> bool {
    module matches Some(found) ==> found.wf() && found.module_name@ == name
}

/// Hands the index a module that was looked for: the one found in the workspace, else the one found
/// outside it. Where there is neither, the index notes that the module is absent.
pub fn supply_module(index: &mut WorkspaceIndex, name: String, inside: Option<ModuleInfo>, outside: Option<ModuleInfo>)
    requires
        old(index).wf(),
        goes_by(inside, name@),
        goes_by(outside, name@),
    ensures
        final(index).wf(),
        final(index)@ == supplied(old(index)@, name@, inside.deep_view(), outside.deep_view()),
        !(final(index)@.lookup(name@) is Unknown),
{
    if let Some(module) = inside {
        index.add_workspace_module(module);
    } else if let Some(module) = outside {
        index.add_external_module(module);
    } else {
        index.mark_absent(name);
    }
}

/// A module of a workspace is found under its name, unless a later one has the same name.
pub proof fn law_modules_are_found_by_name(root: Text, import_roots: Seq<Text>, modules: Seq<ModuleView>, i: int)
    requires
        0 <= i < modules.len(),
        forall|k: int|
            i < k < modules.len() ==> (#[trigger] modules[k]).module_name != modules[i].module_name,
    ensures
        workspace_index(root, import_roots, modules).lookup(modules[i].module_name) == (
        index::Lookup::Known { module: modules[i], external: false }),
{
    lemma_found_by_name(index::empty_index(root, import_roots), modules, i);
}

/// The file of a module of a workspace leads to the module's name, unless a later module has the
/// same path.
pub proof fn law_modules_are_found_by_path(root: Text, import_roots: Seq<Text>, modules: Seq<ModuleView>, i: int)
    requires
        0 <= i < modules.len(),
        forall|k: int|
            i < k < modules.len() ==> paths::plain((#[trigger] modules[k]).path) != paths::plain(
                modules[i].path,
            ),
    ensures
        workspace_index(root, import_roots, modules).module_name_for_file(modules[i].path) == Some(
            modules[i].module_name,
        ),
{
    lemma_found_by_path(index::empty_index(root, import_roots), modules, i);
}

proof fn lemma_found_by_name(idx: IndexView, modules: Seq<ModuleView>, i: int)
    requires
        0 <= i < modules.len(),
        forall|k: int|
            i < k < modules.len() ==> (#[trigger] modules[k]).module_name != modules[i].module_name,
    ensures
        with_modules(idx, modules).workspace.contains_key(modules[i].module_name),
        with_modules(idx, modules).workspace[modules[i].module_name] == modules[i],
    decreases modules.len(),
{
    if i < modules.len() - 1 {
        assert(modules[modules.len() - 1].module_name != modules[i].module_name);
        lemma_found_by_name(idx, modules.drop_last(), i);
    }
}

proof fn lemma_found_by_path(idx: IndexView, modules: Seq<ModuleView>, i: int)
    requires
        0 <= i < modules.len(),
        forall|k: int|
            i < k < modules.len() ==> paths::plain((#[trigger] modules[k]).path) != paths::plain(
                modules[i].path,
            ),
    ensures
        with_modules(idx, modules).by_path.contains_key(paths::plain(modules[i].path)),
        with_modules(idx, modules).by_path[paths::plain(modules[i].path)] == modules[i].module_name,
        with_modules(idx, modules).workspace.contains_key(modules[i].module_name),
        with_modules(idx, modules).workspace[modules[i].module_name].module_name == modules[i].module_name,
    decreases modules.len(),
{
    if i < modules.len() - 1 {
        assert(paths::plain(modules[modules.len() - 1].path) != paths::plain(modules[i].path));
        lemma_found_by_path(idx, modules.drop_last(), i);
    }
}

} // verus!
