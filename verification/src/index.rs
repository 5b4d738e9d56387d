//! The index of a workspace: its modules, those that they import, and what is derived from them.
use rustc_hash::FxHashSet;
use vstd::prelude::*;

use crate::errors;
use crate::errors::Fault;
use crate::errors::FaultView;
use crate::errors::QueryError;
use crate::errors::QueryErrorView;
use crate::model::CallHierarchyEdge;
use crate::model::EdgeView;
use crate::model::ModuleInfo;
use crate::model::ModuleView;
use crate::names;
use crate::names::names_contain;
use crate::names::names_insert;
use crate::names::names_new;
use crate::names::NameMap;
use crate::paths;
use crate::paths::module_name_from_path;
use crate::paths::plain_path;
use crate::text::Text;

verus! {

/// A workspace. Modules that are neither here nor noted as absent have not been looked for yet.
pub struct WorkspaceIndex {
    pub root: String,
    pub modules_by_name: NameMap<ModuleInfo>,
    pub modules_by_path: NameMap<String>,
    pub lazy_workspace_modules: NameMap<ModuleInfo>,
    pub lazy_workspace_paths: NameMap<String>,
    pub external_modules: NameMap<ModuleInfo>,
    pub absent_modules: FxHashSet<String>,
    pub import_roots: Vec<String>,
    pub direct_subtypes: NameMap<Vec<(String, String)>>,
    pub outgoing_calls: NameMap<Vec<(String, CallHierarchyEdge)>>,
    pub incoming_calls: NameMap<Vec<(String, CallHierarchyEdge)>>,
}

/// What an index is. Files stand in it under the plain forms of their paths, and the edges of a
/// function with the keys of the functions they lead to.
#[verifier::ext_equal]
pub struct IndexView {
    pub root: Text,
    pub workspace: Map<Text, ModuleView>,
    pub order: Seq<Text>,
    pub by_path: Map<Text, Text>,
    pub lazy: Map<Text, ModuleView>,
    pub lazy_paths: Map<Text, Text>,
    pub external: Map<Text, ModuleView>,
    pub absent: Set<Text>,
    pub import_roots: Seq<Text>,
    pub subtypes: Map<Text, Seq<(Text, Text)>>,
    pub outgoing: Map<Text, Seq<(Text, EdgeView)>>,
    pub incoming: Map<Text, Seq<(Text, EdgeView)>>,
}

/// What is known of the module of a name: the module, and whether it lies outside the workspace.
pub enum Lookup {
    Known { module: ModuleView, external: bool },
    Absent,
    Unknown,
}

/// Whether each module stands under its name and binds finitely many names.
pub open spec fn well_named(modules: Map<Text, ModuleView>) -> bool {
    &&& modules.dom().finite()
    &&& forall|name: Text| #[trigger]
        modules.contains_key(name) ==> modules[name].module_name == name
            && modules[name].imports.dom().finite()
}

/// The first import root under which a file lies gives its module its name.
pub open spec fn first_name(roots: Seq<Text>, file: Text) -> Option<Text>
    decreases roots.len(),
{
    if roots.len() == 0 {
        None
    } else {
        match paths::module_name_at(roots[0], file) {
            Ok(name) => Some(name),
            Err(_) => first_name(roots.drop_first(), file),
        }
    }
}

/// An index without modules.
pub open spec fn empty_index(root: Text, import_roots: Seq<Text>) -> IndexView {
    IndexView {
        root,
        workspace: Map::empty(),
        order: Seq::empty(),
        by_path: Map::empty(),
        lazy: Map::empty(),
        lazy_paths: Map::empty(),
        external: Map::empty(),
        absent: Set::empty(),
        import_roots,
        subtypes: Map::empty(),
        outgoing: Map::empty(),
        incoming: Map::empty(),
    }
}

impl IndexView {
    /// The index has finitely many modules, each under its name.
    pub open spec fn wf(self) -> bool {
        &&& well_named(self.workspace)
        &&& well_named(self.lazy)
        &&& well_named(self.external)
    }

    /// The names of the modules at hand.
    pub open spec fn known(self) -> Set<Text> {
        self.workspace.dom().union(self.lazy.dom()).union(self.external.dom())
    }

    /// What is known of the module of a name. A module of the workspace hides one from outside.
    pub open spec fn lookup(self, name: Text) -> Lookup {
        if self.workspace.contains_key(name) {
            Lookup::Known { module: self.workspace[name], external: false }
        } else if self.lazy.contains_key(name) {
            Lookup::Known { module: self.lazy[name], external: false }
        } else if self.external.contains_key(name) {
            Lookup::Known { module: self.external[name], external: true }
        } else if self.absent.contains(name) {
            Lookup::Absent
        } else {
            Lookup::Unknown
        }
    }

    /// The module of a name at hand.
    pub open spec fn module(self, name: Text) -> ModuleView {
        if self.workspace.contains_key(name) {
            self.workspace[name]
        } else if self.lazy.contains_key(name) {
            self.lazy[name]
        } else {
            self.external[name]
        }
    }

    /// The name of the module in a file.
    pub open spec fn module_name_for_file(self, file: Text) -> Option<Text> {
        let form = paths::plain(file);
        if self.by_path.contains_key(form) && self.workspace.contains_key(self.by_path[form]) {
            Some(self.workspace[self.by_path[form]].module_name)
        } else if self.lazy_paths.contains_key(form) {
            Some(self.lazy_paths[form])
        } else {
            match first_name(self.import_roots, file) {
                Some(name) => Some(name),
                None => match paths::module_name_at(self.root, file) {
                    Ok(name) => Some(name),
                    Err(_) => None,
                },
            }
        }
    }

    /// The name of the module in a file, by its path as given or by its canonical path.
    pub open spec fn resolve_module_name(self, file: Text, canonical: Option<Text>) -> Result<Text, QueryErrorView> {
        match self.module_name_for_file(file) {
            Some(name) => Ok(name),
            None => match canonical {
                Some(path) => match self.module_name_for_file(path) {
                    Some(name) => Ok(name),
                    None => Err(QueryErrorView::FileNotIndexed { file }),
                },
                None => Err(QueryErrorView::FileNotIndexed { file }),
            },
        }
    }
}

/// A module at hand is one of those known, under its name, and binds finitely many names.
pub proof fn lemma_lookup(idx: IndexView, name: Text)
    requires
        idx.wf(),
    ensures
        idx.known().finite(),
        idx.lookup(name) is Known <==> idx.known().contains(name),
        idx.lookup(name) matches Lookup::Known { module, external } ==> module == idx.module(name)
            && module.module_name == name && module.imports.dom().finite(),
{
    if idx.workspace.contains_key(name) {
    } else if idx.lazy.contains_key(name) {
    } else if idx.external.contains_key(name) {
    }
}

/// Whether every module of a table holds together.
pub open spec fn modules_wf(modules: NameMap<ModuleInfo>) -> bool {
    &&& modules.wf()
    &&& forall|name: Text| #[trigger]
        modules.entries().contains_key(name) ==> modules.entries()[name].wf()
            && modules.entries()[name].module_name@ == name
}

proof fn lemma_well_named(modules: NameMap<ModuleInfo>)
    requires
        modules_wf(modules),
    ensures
        well_named(modules.deep_entries()),
        modules.deep_entries().dom() == modules.entries().dom(),
{
    modules.lemma_order();
    assert(modules.deep_entries().dom() =~= modules.entries().dom());
    assert forall|name: Text| #[trigger] modules.deep_entries().contains_key(name) implies
        modules.deep_entries()[name].module_name == name
        && modules.deep_entries()[name].imports.dom().finite() by {
        let module = modules.entries()[name];
        assert(modules.entries().contains_key(name));
        module.imports.lemma_order();
        assert(module.imports.deep_entries().dom() =~= module.imports.entries().dom());
    }
}

impl View for WorkspaceIndex {
    type V = IndexView;

    open spec fn view(&self) -> IndexView {
        IndexView {
            root: self.root@,
            workspace: self.modules_by_name.deep_entries(),
            order: self.modules_by_name.order(),
            by_path: self.modules_by_path.deep_entries(),
            lazy: self.lazy_workspace_modules.deep_entries(),
            lazy_paths: self.lazy_workspace_paths.deep_entries(),
            external: self.external_modules.deep_entries(),
            absent: names::names_of(self.absent_modules),
            import_roots: self.import_roots.deep_view(),
            subtypes: self.direct_subtypes.deep_entries(),
            outgoing: self.outgoing_calls.deep_entries(),
            incoming: self.incoming_calls.deep_entries(),
        }
    }
}

impl WorkspaceIndex {
    /// The tables hold together.
    pub open spec fn wf(&self) -> bool {
        &&& modules_wf(self.modules_by_name)
        &&& modules_wf(self.lazy_workspace_modules)
        &&& modules_wf(self.external_modules)
        &&& self.modules_by_path.wf()
        &&& self.lazy_workspace_paths.wf()
        &&& self.direct_subtypes.wf()
        &&& self.outgoing_calls.wf()
        &&& self.incoming_calls.wf()
    }

    /// What an index that holds together stands for holds together.
    pub proof fn lemma_view_wf(&self)
        requires
            self.wf(),
        ensures
            self@.wf(),
            self@.workspace.dom() == self@.order.to_set(),
            self@.order.no_duplicates(),
    {
        lemma_well_named(self.modules_by_name);
        lemma_well_named(self.lazy_workspace_modules);
        lemma_well_named(self.external_modules);
        self.modules_by_name.lemma_order();
    }

    /// An index without modules.
    pub fn new(root: String, import_roots: Vec<String>) -> (index: Self)
        ensures
            index.wf(),
            index@ == empty_index(root@, import_roots.deep_view()),
    {
        let index = WorkspaceIndex {
            root,
            modules_by_name: NameMap::new(),
            modules_by_path: NameMap::new(),
            lazy_workspace_modules: NameMap::new(),
            lazy_workspace_paths: NameMap::new(),
            external_modules: NameMap::new(),
            absent_modules: names_new(),
            import_roots,
            direct_subtypes: NameMap::new(),
            outgoing_calls: NameMap::new(),
            incoming_calls: NameMap::new(),
        };
        assert(index@.workspace =~= Map::empty());
        assert(index@.by_path =~= Map::empty());
        assert(index@.lazy =~= Map::empty());
        assert(index@.lazy_paths =~= Map::empty());
        assert(index@.external =~= Map::empty());
        assert(index@.subtypes =~= Map::empty());
        assert(index@.outgoing =~= Map::empty());
        assert(index@.incoming =~= Map::empty());
        index
    }

    /// The directory of the workspace.
    pub fn root(&self) -> (root: &str)
        ensures
            root@ == self@.root,
    {
        self.root.as_str()
    }

    /// The module of a name, and whether it lies outside the workspace. Where the module has not
    /// been looked for, its name comes back as a fault: find it or note that it is absent.
    pub fn get_module(&self, name: &str) -> (found: Result<Option<(&ModuleInfo, bool)>, Fault>)
        requires
            self.wf(),
        ensures
            match found {
                Ok(Some((module, external))) => module.wf() && self@.lookup(name@) == (Lookup::Known {
                    module: module.deep_view(),
                    external,
                }),
                Ok(None) => self@.lookup(name@) is Absent,
                Err(fault) => self@.lookup(name@) is Unknown && fault.deep_view()
                    == FaultView::NeedsModule(name@),
            },
    {
        if let Some(module) = self.modules_by_name.get(name) {
            assert(self@.workspace.contains_key(name@));
            return Ok(Some((module, false)));
        }
        if let Some(module) = self.lazy_workspace_modules.get(name) {
            assert(self@.lazy.contains_key(name@));
            return Ok(Some((module, false)));
        }
        if let Some(module) = self.external_modules.get(name) {
            assert(self@.external.contains_key(name@));
            return Ok(Some((module, true)));
        }
        if names_contain(&self.absent_modules, name) {
            Ok(None)
        } else {
            Err(Fault::NeedsModule(name.to_owned()))
        }
    }

    /// The name of the module in a file.
    pub fn module_name_for_file(&self, file: &str) -> (name: Option<String>)
        requires
            self.wf(),
        ensures
            name.deep_view() == self@.module_name_for_file(file@),
    {
        let form = plain_path(file);
        if let Some(module_name) = self.modules_by_path.get(form.as_str()) {
            if let Some(module) = self.modules_by_name.get(module_name.as_str()) {
                assert(self@.workspace.contains_key(module_name@));
                return Some(module.module_name.clone());
            }
        }
        if let Some(module_name) = self.lazy_workspace_paths.get(form.as_str()) {
            return Some(module_name.clone());
        }
        let ghost roots = self.import_roots.deep_view();
        let mut i: usize = 0;
        assert(roots.skip(0) =~= roots);
        while i < self.import_roots.len()
            invariant
                i <= self.import_roots@.len(),
                roots == self.import_roots.deep_view(),
                first_name(roots.skip(i as int), file@) == first_name(roots, file@),
                self@.module_name_for_file(file@) == (match first_name(roots, file@) {
                    Some(name) => Some(name),
                    None => match paths::module_name_at(self@.root, file@) {
                        Ok(name) => Some(name),
                        Err(_) => None,
                    },
                }),
            decreases self.import_roots@.len() - i,
        {
            assert(roots.skip(i as int)[0] == self.import_roots@[i as int]@);
            assert(roots.skip(i as int).drop_first() =~= roots.skip(i as int + 1));
            if let Ok(name) = module_name_from_path(self.import_roots[i].as_str(), file) {
                return Some(name);
            }
            i = i + 1;
        }
        match module_name_from_path(self.root.as_str(), file) {
            Ok(name) => Some(name),
            Err(_) => None,
        }
    }

    /// The name of the module in a file, by its path as given or by its canonical path.
    pub fn resolve_module_name(&self, file: &str, canonical: &Option<String>) -> (name: Result<String, QueryError>)
        requires
            self.wf(),
        ensures
            errors::answers(name, self@.resolve_module_name(file@, canonical.deep_view())),
    {
        if let Some(name) = self.module_name_for_file(file) {
            return Ok(name);
        }
        if let Some(path) = canonical {
            if let Some(name) = self.module_name_for_file(path.as_str()) {
                return Ok(name);
            }
        }
        Err(QueryError::FileNotIndexed { file: file.to_owned() })
    }

    /// Adds a module of the workspace that was looked up by its name.
    pub fn add_workspace_module(&mut self, module: ModuleInfo)
        requires
            old(self).wf(),
            module.wf(),
        ensures
            final(self).wf(),
            final(self)@ == (IndexView {
                lazy: old(self)@.lazy.insert(module.module_name@, module.deep_view()),
                lazy_paths: old(self)@.lazy_paths.insert(paths::plain(module.path@), module.module_name@),
                ..old(self)@
            }),
    {
        let ghost before = self@;
        let ghost viewed = module.deep_view();
        let name = module.module_name.clone();
        self.lazy_workspace_paths.insert(plain_path(module.path.as_str()), name.clone());
        assert(self@.lazy_paths =~= before.lazy_paths.insert(paths::plain(viewed.path), viewed.module_name));
        self.lazy_workspace_modules.insert(name, module);
        assert(self@.lazy =~= before.lazy.insert(viewed.module_name, viewed));
    }

    /// Adds a module that was found under an import root.
    pub fn add_external_module(&mut self, module: ModuleInfo)
        requires
            old(self).wf(),
            module.wf(),
        ensures
            final(self).wf(),
            final(self)@ == (IndexView {
                external: old(self)@.external.insert(module.module_name@, module.deep_view()),
                ..old(self)@
            }),
    {
        let ghost before = self@;
        let ghost viewed = module.deep_view();
        let name = module.module_name.clone();
        self.external_modules.insert(name, module);
        assert(self@.external =~= before.external.insert(viewed.module_name, viewed));
    }

    /// Notes that no module of this name can be found.
    pub fn mark_absent(&mut self, name: String)
        requires
            old(self).wf(),
        ensures
            final(self).wf(),
            final(self)@ == (IndexView { absent: old(self)@.absent.insert(name@), ..old(self)@ }),
    {
        let _ = names_insert(&mut self.absent_modules, name);
    }

    /// Forgets which modules were not found, so that they are looked for again.
    pub fn forget_absent(&mut self)
        requires
            old(self).wf(),
        ensures
            final(self).wf(),
            final(self)@ == (IndexView { absent: Set::empty(), ..old(self)@ }),
    {
        self.absent_modules = names_new();
    }
}

/// Drops what was read of a file on demand, so that the file is read again.
pub open spec fn evicted(idx: IndexView, file: Text) -> IndexView {
    let form = paths::plain(file);
    if idx.lazy_paths.contains_key(form) {
        IndexView {
            lazy: idx.lazy.remove(idx.lazy_paths[form]),
            lazy_paths: idx.lazy_paths.remove(form),
            ..idx
        }
    } else {
        idx
    }
}

/// Drops what was read of a file on demand, so that the file is read again.
pub fn evict_module_file(index: &mut WorkspaceIndex, file: &str)
    requires
        old(index).wf(),
    ensures
        final(index).wf(),
        final(index)@ == evicted(old(index)@, file@),
{
    let ghost before = index@;
    let form = plain_path(file);
    let module_name = match index.lazy_workspace_paths.get(form.as_str()) {
        Some(name) => name.clone(),
        None => {
            return;
        },
    };
    index.lazy_workspace_modules.remove(module_name.as_str());
    assert(index@.lazy =~= before.lazy.remove(module_name@));
    index.lazy_workspace_paths.remove(form.as_str());
    assert(index@.lazy_paths =~= before.lazy_paths.remove(form@));
}

/// Adds the import roots that have been discovered since, behind those known.
pub fn refresh_import_roots(index: &mut WorkspaceIndex, discovered: Vec<String>)
    requires
        old(index).wf(),
    ensures
        final(index).wf(),
        final(index)@ == (IndexView {
            import_roots: paths::extended(old(index)@.import_roots, discovered.deep_view()),
            ..old(index)@
        }),
{
    let ghost before = index@;
    let ghost all = discovered.deep_view();
    let mut seen = names_new();
    let mut i: usize = 0;
    let ghost known = before.import_roots;
    while i < index.import_roots.len()
        invariant
            i <= index.import_roots@.len(),
            known == index.import_roots.deep_view(),
            forall|form: Text|
                names::names_of(seen).contains(form) <==> paths::forms(known.take(i as int)).contains(form),
        decreases index.import_roots@.len() - i,
    {
        let ghost now = known.take(i as int);
        assert(known.take(i as int + 1) =~= now.push(index.import_roots@[i as int]@));
        let _ = names_insert(&mut seen, plain_path(index.import_roots[i].as_str()));
        proof {
            paths::lemma_forms_push(now, index.import_roots@[i as int]@);
        }
        i = i + 1;
    }
    assert(known.take(i as int) =~= known);
    i = 0;
    assert(all.take(0) =~= Seq::<Text>::empty());
    while i < discovered.len()
        invariant
            i <= discovered@.len(),
            all == discovered.deep_view(),
            index.wf(),
            index@ == (IndexView { import_roots: index@.import_roots, ..before }),
            index@.import_roots == paths::extended(known, all.take(i as int)),
            forall|form: Text|
                names::names_of(seen).contains(form) <==> paths::forms(index@.import_roots).contains(form),
        decreases discovered@.len() - i,
    {
        let ghost held = names::names_of(seen);
        let ghost now = index@.import_roots;
        assert(all.take(i as int + 1).drop_last() =~= all.take(i as int));
        assert(all[i as int] == discovered@[i as int]@);
        if names_insert(&mut seen, plain_path(discovered[i].as_str())) {
            index.import_roots.push(discovered[i].clone());
            assert(index@.import_roots =~= now.push(all[i as int]));
            proof {
                paths::lemma_forms_push(now, all[i as int]);
            }
        } else {
            assert(names::names_of(seen) =~= held);
        }
        i = i + 1;
    }
    assert(all.take(i as int) =~= all);
}

} // verus!
