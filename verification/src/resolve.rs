//! Which class a base or a type stands for.
use rustc_hash::FxHashSet;
use vstd::prelude::*;

use crate::annotations;
use crate::annotations::normalize_type_head;
use crate::errors;
use crate::errors::Fault;
use crate::errors::FaultView;
use crate::index;
use crate::index::IndexView;
use crate::index::Lookup;
use crate::index::WorkspaceIndex;
use crate::model::BaseView;
use crate::model::BindingView;
use crate::model::ImportBinding;
use crate::model::ModuleInfo;
use crate::model::ModuleView;
use crate::model::ResolvedBase;
use crate::names;
use crate::names::names_insert;
use crate::names::names_new;
use crate::names::names_remove;
use crate::names::pairs_insert;
use crate::names::pairs_new;
use crate::text;
use crate::text::cat3;
use crate::text::has_char;
use crate::text::join_text;
use crate::text::same;
use crate::text::split_last;
use crate::text::split_text;
use crate::text::Text;

verus! {

/// How many modules at hand have not been seen.
pub open spec fn unseen(idx: IndexView, seen: Set<Text>) -> nat {
    idx.known().difference(seen).len()
}

/// Seeing one more module leaves fewer.
pub proof fn lemma_unseen(idx: IndexView, seen: Set<Text>, name: Text)
    requires
        idx.wf(),
        idx.known().contains(name),
        !seen.contains(name),
    ensures
        unseen(idx, seen.insert(name)) < unseen(idx, seen),
{
    index::lemma_lookup(idx, name);
    let left = idx.known().difference(seen);
    assert(left.contains(name));
    assert(idx.known().difference(seen.insert(name)) =~= left.remove(name));
}

/// The places at which a name is bound by an import: module and name.
pub open spec fn sites(idx: IndexView) -> Set<(Text, Text)> {
    Set::new(
        |site: (Text, Text)|
            idx.known().contains(site.0) && idx.module(site.0).imports.contains_key(site.1),
    )
}

/// How many of those places have not been followed.
pub open spec fn unfollowed(idx: IndexView, followed: Set<(Text, Text)>) -> nat {
    sites(idx).difference(followed).len()
}

/// Pairs whose first part is among finitely many, and whose second part is among finitely many for
/// each of those, are finitely many.
pub proof fn lemma_pairs_finite(firsts: Set<Text>, seconds: spec_fn(Text) -> Set<Text>)
    requires
        firsts.finite(),
        forall|a: Text| firsts.contains(a) ==> (#[trigger] seconds(a)).finite(),
    ensures
        Set::new(|p: (Text, Text)| firsts.contains(p.0) && seconds(p.0).contains(p.1)).finite(),
    decreases firsts.len(),
{
    let all = Set::new(|p: (Text, Text)| firsts.contains(p.0) && seconds(p.0).contains(p.1));
    if firsts.len() == 0 {
        assert(all =~= Set::empty());
    } else {
        let a = firsts.choose();
        let others = firsts.remove(a);
        lemma_pairs_finite(others, seconds);
        let rest = Set::new(|p: (Text, Text)| others.contains(p.0) && seconds(p.0).contains(p.1));
        let here = seconds(a).map(|b: Text| (a, b));
        seconds(a).lemma_map_finite(|b: Text| (a, b));
        assert forall|p: (Text, Text)| all.contains(p) <==> rest.union(here).contains(p) by {
            if p.0 == a && seconds(a).contains(p.1) {
                assert(here.contains((a, p.1)));
            }
        }
        assert(all =~= rest.union(here));
    }
}

proof fn lemma_sites_finite(idx: IndexView)
    requires
        idx.wf(),
    ensures
        sites(idx).finite(),
{
    let seconds = |a: Text| idx.module(a).imports.dom();
    assert forall|a: Text| idx.known().contains(a) implies (#[trigger] seconds(a)).finite() by {
        index::lemma_lookup(idx, a);
    }
    index::lemma_lookup(idx, Seq::empty());
    lemma_pairs_finite(idx.known(), seconds);
    assert(sites(idx) =~= Set::new(
        |p: (Text, Text)| idx.known().contains(p.0) && seconds(p.0).contains(p.1),
    ));
}

/// Following one more place leaves fewer.
pub proof fn lemma_unfollowed(idx: IndexView, followed: Set<(Text, Text)>, site: (Text, Text))
    requires
        idx.wf(),
        sites(idx).contains(site),
        !followed.contains(site),
    ensures
        unfollowed(idx, followed.insert(site)) < unfollowed(idx, followed),
{
    lemma_sites_finite(idx);
    let left = sites(idx).difference(followed);
    assert(left.contains(site));
    assert(sites(idx).difference(followed.insert(site)) =~= left.remove(site));
}

/// Where a module gets a name from: a class of a module, or a binding in one.
pub enum Found {
    Class { module: Text, external: bool },
    Bound { module: Text, binding: BindingView },
}

/// Where module `module` gets `name` from: itself, or a module all of whose names it imports. The
/// modules in `seen` are passed over.
pub open spec fn find_name(idx: IndexView, module: Text, name: Text, seen: Set<Text>) -> Result<Option<Found>, FaultView>
    decreases unseen(idx, seen), 0nat, 0nat,
    when idx.wf()
{
    if seen.contains(module) {
        Ok(None)
    } else {
        match idx.lookup(module) {
            Lookup::Unknown => Err(FaultView::NeedsModule(module)),
            Lookup::Absent => Ok(None),
            Lookup::Known { module: info, external } => if info.has_class(name) {
                Ok(Some(Found::Class { module, external }))
            } else if info.imports.contains_key(name) {
                Ok(Some(Found::Bound { module, binding: info.imports[name] }))
            } else {
                proof {
                    index::lemma_lookup(idx, module);
                    lemma_unseen(idx, seen, module);
                }
                find_in_stars(idx, info.star_imports, name, seen.insert(module))
            },
        }
    }
}

/// Where the first of these modules that has the name gets it from.
pub open spec fn find_in_stars(idx: IndexView, modules: Seq<Text>, name: Text, seen: Set<Text>) -> Result<Option<Found>, FaultView>
    decreases unseen(idx, seen), 1nat, modules.len(),
    when idx.wf()
{
    if modules.len() == 0 {
        Ok(None)
    } else {
        match find_name(idx, modules[0], name, seen) {
            Ok(None) => find_in_stars(idx, modules.drop_first(), name, seen),
            found => found,
        }
    }
}

/// A binding that was found is at one of the places that bind names.
pub proof fn lemma_found_site(idx: IndexView, module: Text, name: Text, seen: Set<Text>)
    requires
        idx.wf(),
    ensures
        find_name(idx, module, name, seen) matches Ok(Some(Found::Bound { module: at, binding }))
            ==> sites(idx).contains((at, name)) && idx.module(at).imports[name] == binding,
        find_name(idx, module, name, seen) matches Ok(Some(Found::Class { module: at, external }))
            ==> idx.lookup(at) == (Lookup::Known { module: idx.module(at), external })
            && idx.module(at).has_class(name),
    decreases unseen(idx, seen), 0nat, 0nat,
{
    index::lemma_lookup(idx, module);
    if !seen.contains(module) {
        if let Lookup::Known { module: info, external } = idx.lookup(module) {
            if !info.has_class(name) && !info.imports.contains_key(name) {
                lemma_unseen(idx, seen, module);
                lemma_found_star_site(idx, info.star_imports, name, seen.insert(module));
            }
        }
    }
}

proof fn lemma_found_star_site(idx: IndexView, modules: Seq<Text>, name: Text, seen: Set<Text>)
    requires
        idx.wf(),
    ensures
        find_in_stars(idx, modules, name, seen) matches Ok(
            Some(Found::Bound { module: at, binding }),
        ) ==> sites(idx).contains((at, name)) && idx.module(at).imports[name] == binding,
        find_in_stars(idx, modules, name, seen) matches Ok(
            Some(Found::Class { module: at, external }),
        ) ==> idx.lookup(at) == (Lookup::Known { module: idx.module(at), external }) && idx.module(
            at,
        ).has_class(name),
    decreases unseen(idx, seen), 1nat, modules.len(),
{
    if modules.len() > 0 {
        lemma_found_site(idx, modules[0], name, seen);
        lemma_found_star_site(idx, modules.drop_first(), name, seen);
    }
}

/// A class as a base.
pub open spec fn base_of(module: Text, class_name: Text, external: bool, display: Text) -> BaseView {
    if external {
        BaseView::External { module, class_name, display }
    } else {
        BaseView::Workspace { module, class_name, display }
    }
}

/// The class that a binding leads to. Places in `followed` were on the way here: coming back to
/// one of them is a cycle.
pub open spec fn follow(idx: IndexView, binding: BindingView, display: Text, followed: Set<(Text, Text)>) -> Result<BaseView, FaultView>
    decreases unfollowed(idx, followed), 1nat,
    when idx.wf()
{
    match binding {
        BindingView::Module { module } => match text::split_at_last(module, '.') {
            Some((package, name)) => member(idx, package, name, display, followed),
            None => Ok(BaseView::Unresolved { display }),
        },
        BindingView::ImportedName { module, name } => match find_name(
            idx,
            module,
            name,
            Set::empty(),
        ) {
            Err(fault) => Err(fault),
            Ok(Some(Found::Class { module: at, external })) => Ok(
                base_of(at, name, external, display),
            ),
            Ok(Some(Found::Bound { module: at, binding: next })) => if followed.contains((at, name)) {
                Err(FaultView::ImportCycle)
            } else {
                proof {
                    lemma_found_site(idx, module, name, Set::empty());
                    lemma_unfollowed(idx, followed, (at, name));
                }
                follow(idx, next, display, followed.insert((at, name)))
            },
            Ok(None) => match text::split_at_last(module + "."@ + name, '.') {
                Some((package, last)) => member(idx, package, last, display, followed),
                None => Ok(BaseView::Unresolved { display }),
            },
        },
    }
}

/// The class that `name` of module `module` is; a class from outside where nothing is known of it.
pub open spec fn member(idx: IndexView, module: Text, name: Text, display: Text, followed: Set<(Text, Text)>) -> Result<BaseView, FaultView>
    decreases unfollowed(idx, followed), 0nat,
    when idx.wf()
{
    match find_name(idx, module, name, Set::empty()) {
        Err(fault) => Err(fault),
        Ok(Some(Found::Class { module: at, external })) => Ok(base_of(at, name, external, display)),
        Ok(Some(Found::Bound { module: at, binding })) => if followed.contains((at, name)) {
            Err(FaultView::ImportCycle)
        } else {
            proof {
                lemma_found_site(idx, module, name, Set::empty());
                lemma_unfollowed(idx, followed, (at, name));
            }
            follow(idx, binding, display, followed.insert((at, name)))
        },
        Ok(None) => Ok(BaseView::External { module, class_name: name, display }),
    }
}

/// The module and the name that a dotted path behind a module leads to.
pub open spec fn path_target(module: Text, tail: Seq<Text>) -> (Text, Text) {
    if tail.len() == 1 {
        (module, tail[0])
    } else {
        (module + "."@ + text::joined(tail.drop_last(), "."@), tail.last())
    }
}

/// The module that a binding is taken for where a path goes on behind it.
pub open spec fn bound_module(binding: BindingView) -> Text {
    match binding {
        BindingView::Module { module } => module,
        BindingView::ImportedName { module, name } => module + "."@ + name,
    }
}

/// The class that a binding with a path behind it leads to.
pub open spec fn bound_class(idx: IndexView, binding: BindingView, tail: Seq<Text>, display: Text) -> Result<BaseView, FaultView> {
    if tail.len() == 0 {
        follow(idx, binding, display, Set::empty())
    } else {
        let (module, name) = path_target(bound_module(binding), tail);
        member(idx, module, name, display, Set::empty())
    }
}

/// The class that a name in module `module` is, where the module has the name.
pub open spec fn named_class(idx: IndexView, module: Text, name: Text, display: Text) -> Result<Option<BaseView>, FaultView> {
    match find_name(idx, module, name, Set::empty()) {
        Err(fault) => Err(fault),
        Ok(Some(Found::Class { module: at, external })) => Ok(
            Some(base_of(at, name, external, display)),
        ),
        Ok(Some(Found::Bound { module: at, binding })) => match follow(
            idx,
            binding,
            display,
            set![(at, name)],
        ) {
            Ok(base) => Ok(Some(base)),
            Err(fault) => Err(fault),
        },
        Ok(None) => Ok(None),
    }
}

/// The class that a single name stands for in a module: one of its own, one that it imports, or a
/// builtin one.
pub open spec fn simple_base(idx: IndexView, module: ModuleView, name: Text, display: Text) -> Result<BaseView, FaultView> {
    if module.has_class(name) {
        Ok(BaseView::Workspace { module: module.module_name, class_name: name, display })
    } else if module.imports.contains_key(name) {
        follow(idx, module.imports[name], display, Set::empty())
    } else {
        match named_class(idx, module.module_name, name, display) {
            Err(fault) => Err(fault),
            Ok(Some(base)) => Ok(base),
            Ok(None) => match named_class(idx, "builtins"@, name, display) {
                Err(fault) => Err(fault),
                Ok(Some(base)) => Ok(base),
                Ok(None) => if name == "object"@ {
                    Ok(BaseView::External { module: "builtins"@, class_name: "object"@, display })
                } else {
                    Ok(BaseView::Unresolved { display })
                },
            },
        }
    }
}

/// The class that a base or a type, as it is written in a module, stands for.
pub open spec fn base_in(idx: IndexView, module: ModuleView, raw: Text) -> Result<BaseView, FaultView> {
    let head = annotations::type_head(raw);
    let parts = text::split(head, Some('.'));
    if raw.contains('=') || head.len() == 0 {
        Ok(BaseView::Unresolved { display: raw })
    } else if parts.len() == 1 {
        simple_base(idx, module, parts[0], raw)
    } else if module.imports.contains_key(parts[0]) {
        bound_class(idx, module.imports[parts[0]], parts.drop_first(), raw)
    } else {
        Ok(
            BaseView::External {
                module: text::joined(parts.drop_last(), "."@),
                class_name: parts.last(),
                display: raw,
            },
        )
    }
}

/// Whether a base that is said to be of the workspace is a class of a module of the workspace.
pub open spec fn honest(idx: IndexView, base: BaseView, display: Text) -> bool {
    match base {
        BaseView::Workspace { module, class_name, display: shown } => shown == display
            && idx.lookup(module) == (Lookup::Known { module: idx.module(module), external: false })
            && idx.module(module).has_class(class_name),
        BaseView::External { display: shown, .. } => shown == display,
        BaseView::Unresolved { display: shown } => shown == display,
    }
}

proof fn lemma_follow_is_honest(idx: IndexView, binding: BindingView, display: Text, followed: Set<(Text, Text)>)
    requires
        idx.wf(),
    ensures
        follow(idx, binding, display, followed) matches Ok(base) ==> honest(idx, base, display),
    decreases unfollowed(idx, followed), 1nat,
{
    match binding {
        BindingView::Module { module } => {
            if let Some((package, name)) = text::split_at_last(module, '.') {
                lemma_member_is_honest(idx, package, name, display, followed);
            }
        },
        BindingView::ImportedName { module, name } => {
            lemma_found_site(idx, module, name, Set::empty());
            match find_name(idx, module, name, Set::empty()) {
                Ok(Some(Found::Bound { module: at, binding: next })) => {
                    if !followed.contains((at, name)) {
                        lemma_unfollowed(idx, followed, (at, name));
                        lemma_follow_is_honest(idx, next, display, followed.insert((at, name)));
                    }
                },
                Ok(None) => {
                    if let Some((package, last)) = text::split_at_last(module + "."@ + name, '.') {
                        lemma_member_is_honest(idx, package, last, display, followed);
                    }
                },
                _ => {},
            }
        },
    }
}

proof fn lemma_member_is_honest(idx: IndexView, module: Text, name: Text, display: Text, followed: Set<(Text, Text)>)
    requires
        idx.wf(),
    ensures
        member(idx, module, name, display, followed) matches Ok(base) ==> honest(
            idx,
            base,
            display,
        ),
    decreases unfollowed(idx, followed), 0nat,
{
    lemma_found_site(idx, module, name, Set::empty());
    if let Ok(Some(Found::Bound { module: at, binding })) = find_name(
        idx,
        module,
        name,
        Set::empty(),
    ) {
        if !followed.contains((at, name)) {
            lemma_unfollowed(idx, followed, (at, name));
            lemma_follow_is_honest(idx, binding, display, followed.insert((at, name)));
        }
    }
}

/// A base that resolves to a class of the workspace resolves to one that is there, in a module of
/// the workspace; and every base is shown as it was written.
pub proof fn law_workspace_bases_exist(idx: IndexView, name: Text, raw: Text)
    requires
        idx.wf(),
        idx.lookup(name) matches Lookup::Known { external: false, .. },
    ensures
        base_in(idx, idx.module(name), raw) matches Ok(base) ==> honest(idx, base, raw),
{
    let module = idx.module(name);
    index::lemma_lookup(idx, name);
    let parts = text::split(annotations::type_head(raw), Some('.'));
    let head = parts[0];
    lemma_follow_is_honest(idx, module.imports[head], raw, Set::empty());
    lemma_found_site(idx, module.module_name, head, Set::empty());
    lemma_found_site(idx, "builtins"@, head, Set::empty());
    if let Ok(Some(Found::Bound { module: at, binding })) = find_name(
        idx,
        module.module_name,
        head,
        Set::empty(),
    ) {
        lemma_follow_is_honest(idx, binding, raw, set![(at, head)]);
    }
    if let Ok(Some(Found::Bound { module: at, binding })) = find_name(
        idx,
        "builtins"@,
        head,
        Set::empty(),
    ) {
        lemma_follow_is_honest(idx, binding, raw, set![(at, head)]);
    }
    let (package, last) = path_target(bound_module(module.imports[head]), parts.drop_first());
    lemma_member_is_honest(idx, package, last, raw, Set::empty());
}

/// A base of a class of any module at hand that resolves to a class of the workspace resolves to one
/// that is at hand.
pub proof fn lemma_workspace_bases_are_there(idx: IndexView, name: Text, raw: Text)
    requires
        idx.wf(),
        idx.lookup(name) is Known,
    ensures
        base_in(idx, idx.module(name), raw) matches Ok(BaseView::Workspace { module, class_name, .. })
            ==> idx.lookup(module) is Known && idx.module(module).has_class(class_name),
{
    let module = idx.module(name);
    index::lemma_lookup(idx, name);
    let parts = text::split(annotations::type_head(raw), Some('.'));
    let head = parts[0];
    lemma_follow_is_honest(idx, module.imports[head], raw, Set::empty());
    lemma_found_site(idx, module.module_name, head, Set::empty());
    lemma_found_site(idx, "builtins"@, head, Set::empty());
    if let Ok(Some(Found::Bound { module: at, binding })) = find_name(
        idx,
        module.module_name,
        head,
        Set::empty(),
    ) {
        lemma_follow_is_honest(idx, binding, raw, set![(at, head)]);
    }
    if let Ok(Some(Found::Bound { module: at, binding })) = find_name(
        idx,
        "builtins"@,
        head,
        Set::empty(),
    ) {
        lemma_follow_is_honest(idx, binding, raw, set![(at, head)]);
    }
    let (package, last) = path_target(bound_module(module.imports[head]), parts.drop_first());
    lemma_member_is_honest(idx, package, last, raw, Set::empty());
}

/// Where a module gets a name from.
enum FoundAt<'a> {
    Class { module: String, external: bool },
    Bound { module: String, binding: &'a ImportBinding },
}

impl<'a> FoundAt<'a> {
    spec fn is(&self, found: Found) -> bool {
        match self {
            FoundAt::Class { module, external } => found == (Found::Class {
                module: module@,
                external: *external,
            }),
            FoundAt::Bound { module, binding } => found == (Found::Bound {
                module: module@,
                binding: binding.deep_view(),
            }),
        }
    }
}

spec fn is_found(answer: Result<Option<FoundAt>, Fault>, expected: Result<Option<Found>, FaultView>) -> bool {
    match (answer, expected) {
        (Ok(Some(at)), Ok(Some(found))) => at.is(found),
        (Ok(None), Ok(None)) => true,
        (Err(fault), Err(expected_fault)) => fault.deep_view() == expected_fault,
        _ => false,
    }
}

/// Where module `module` gets `name` from; the modules in `seen` are passed over.
fn find_name_from<'a>(index: &'a WorkspaceIndex, module: &str, name: &str, seen: &mut FxHashSet<String>) -> (answer: Result<Option<FoundAt<'a>>, Fault>)
    requires
        index.wf(),
    ensures
        is_found(answer, find_name(index@, module@, name@, names::names_of(*old(seen)))),
        answer is Ok ==> names::names_of(*final(seen)) == names::names_of(*old(seen)),
    decreases unseen(index@, names::names_of(*old(seen))), 0nat, 0nat,
{
    let ghost idx = index@;
    let ghost before = names::names_of(*seen);
    proof {
        index.lemma_view_wf();
        index::lemma_lookup(idx, module@);
    }
    if !names_insert(seen, module.to_owned()) {
        assert(before.insert(module@) =~= before);
        return Ok(None);
    }
    assert(before.insert(module@).remove(module@) =~= before);
    let (info, external) = match index.get_module(module) {
        Err(fault) => {
            return Err(fault);
        },
        Ok(None) => {
            names_remove(seen, module);
            return Ok(None);
        },
        Ok(Some(found)) => found,
    };
    if info.has_class(name) {
        names_remove(seen, module);
        return Ok(Some(FoundAt::Class { module: module.to_owned(), external }));
    }
    if let Some(binding) = info.binding(name) {
        names_remove(seen, module);
        return Ok(Some(FoundAt::Bound { module: module.to_owned(), binding }));
    }
    proof {
        lemma_unseen(idx, before, module@);
    }
    let ghost stars = info.star_imports.deep_view();
    let mut i: usize = 0;
    assert(stars.skip(0) =~= stars);
    while i < info.star_imports.len()
        invariant
            i <= info.star_imports@.len(),
            index.wf(),
            idx == index@,
            idx.wf(),
            stars == info.star_imports.deep_view(),
            before == names::names_of(*old(seen)),
            names::names_of(*seen) == before.insert(module@),
            before.insert(module@).remove(module@) == before,
            unseen(idx, before.insert(module@)) < unseen(idx, before),
            find_in_stars(idx, stars.skip(i as int), name@, before.insert(module@))
                == find_in_stars(idx, stars, name@, before.insert(module@)),
            find_name(idx, module@, name@, before) == find_in_stars(
                idx,
                stars,
                name@,
                before.insert(module@),
            ),
        decreases info.star_imports@.len() - i,
    {
        assert(stars.skip(i as int)[0] == info.star_imports@[i as int]@);
        assert(stars.skip(i as int).drop_first() =~= stars.skip(i as int + 1));
        match find_name_from(index, info.star_imports[i].as_str(), name, seen) {
            Ok(None) => {},
            Ok(Some(found)) => {
                names_remove(seen, module);
                return Ok(Some(found));
            },
            Err(fault) => {
                return Err(fault);
            },
        }
        i = i + 1;
    }
    names_remove(seen, module);
    Ok(None)
}

/// A class as a base.
fn make_base(module: String, class_name: &str, external: bool, display: &str) -> (base: ResolvedBase)
    ensures
        base.deep_view() == base_of(module@, class_name@, external, display@),
{
    if external {
        ResolvedBase::External {
            module,
            class_name: class_name.to_owned(),
            display: display.to_owned(),
        }
    } else {
        ResolvedBase::Workspace {
            module,
            class_name: class_name.to_owned(),
            display: display.to_owned(),
        }
    }
}

/// The class that a binding leads to.
fn follow_binding(index: &WorkspaceIndex, binding: &ImportBinding, display: &str, followed: &mut FxHashSet<(String, String)>) -> (answer: Result<ResolvedBase, Fault>)
    requires
        index.wf(),
    ensures
        errors::follows(
            answer,
            follow(index@, binding.deep_view(), display@, names::pairs_of(*old(followed))),
        ),
    decreases unfollowed(index@, names::pairs_of(*old(followed))), 1nat,
{
    let ghost idx = index@;
    proof {
        index.lemma_view_wf();
    }
    match binding {
        ImportBinding::Module { module } => match split_last(module.as_str(), '.') {
            Some((package, name)) => resolve_member(
                index,
                package.as_str(),
                name.as_str(),
                display,
                followed,
            ),
            None => Ok(ResolvedBase::Unresolved { display: display.to_owned() }),
        },
        ImportBinding::ImportedName { module, name } => {
            let mut seen = names_new();
            match find_name_from(index, module.as_str(), name.as_str(), &mut seen) {
                Err(fault) => Err(fault),
                Ok(Some(FoundAt::Class { module: at, external })) => Ok(
                    make_base(at, name.as_str(), external, display),
                ),
                Ok(Some(FoundAt::Bound { module: at, binding: next })) => {
                    proof {
                        lemma_found_site(idx, module@, name@, Set::empty());
                    }
                    let ghost before = names::pairs_of(*followed);
                    let ghost site = (at@, name@);
                    if !pairs_insert(followed, (at, name.clone())) {
                        return Err(Fault::ImportCycle);
                    }
                    proof {
                        lemma_unfollowed(idx, before, site);
                    }
                    follow_binding(index, next, display, followed)
                },
                Ok(None) => {
                    let path = cat3(module.as_str(), ".", name.as_str());
                    match split_last(path.as_str(), '.') {
                        Some((package, last)) => resolve_member(
                            index,
                            package.as_str(),
                            last.as_str(),
                            display,
                            followed,
                        ),
                        None => Ok(ResolvedBase::Unresolved { display: display.to_owned() }),
                    }
                },
            }
        },
    }
}

/// The class that `name` of module `module` is.
fn resolve_member(index: &WorkspaceIndex, module: &str, name: &str, display: &str, followed: &mut FxHashSet<(String, String)>) -> (answer: Result<ResolvedBase, Fault>)
    requires
        index.wf(),
    ensures
        errors::follows(
            answer,
            member(index@, module@, name@, display@, names::pairs_of(*old(followed))),
        ),
    decreases unfollowed(index@, names::pairs_of(*old(followed))), 0nat,
{
    let ghost idx = index@;
    proof {
        index.lemma_view_wf();
    }
    let mut seen = names_new();
    match find_name_from(index, module, name, &mut seen) {
        Err(fault) => Err(fault),
        Ok(Some(FoundAt::Class { module: at, external })) => Ok(
            make_base(at, name, external, display),
        ),
        Ok(Some(FoundAt::Bound { module: at, binding })) => {
            proof {
                lemma_found_site(idx, module@, name@, Set::empty());
            }
            let ghost before = names::pairs_of(*followed);
            let ghost site = (at@, name@);
            if !pairs_insert(followed, (at, name.to_owned())) {
                return Err(Fault::ImportCycle);
            }
            proof {
                lemma_unfollowed(idx, before, site);
            }
            follow_binding(index, binding, display, followed)
        },
        Ok(None) => Ok(
            ResolvedBase::External {
                module: module.to_owned(),
                class_name: name.to_owned(),
                display: display.to_owned(),
            },
        ),
    }
}

/// The class that a binding with a path behind it leads to.
fn resolve_import_binding(index: &WorkspaceIndex, binding: &ImportBinding, tail: Vec<String>, display: &str) -> (answer: Result<ResolvedBase, Fault>)
    requires
        index.wf(),
    ensures
        errors::follows(
            answer,
            bound_class(index@, binding.deep_view(), tail.deep_view(), display@),
        ),
{
    let mut followed = pairs_new();
    let ghost all = tail.deep_view();
    let mut tail = tail;
    match tail.pop() {
        None => follow_binding(index, binding, display, &mut followed),
        Some(last) => {
            assert(last@ == all.last());
            assert(tail.deep_view() =~= all.drop_last());
            let bound = match binding {
                ImportBinding::Module { module } => module.clone(),
                ImportBinding::ImportedName { module, name } => cat3(
                    module.as_str(),
                    ".",
                    name.as_str(),
                ),
            };
            let module = if tail.len() == 0 {
                bound
            } else {
                let inner = join_text(&tail, ".");
                cat3(bound.as_str(), ".", inner.as_str())
            };
            resolve_member(index, module.as_str(), last.as_str(), display, &mut followed)
        },
    }
}

/// The class that a name in module `module` is, where the module has the name.
fn resolve_named_symbol(index: &WorkspaceIndex, module: &str, name: &str, display: &str) -> (answer: Result<Option<ResolvedBase>, Fault>)
    requires
        index.wf(),
    ensures
        errors::follows(answer, named_class(index@, module@, name@, display@)),
{
    let mut seen = names_new();
    match find_name_from(index, module, name, &mut seen) {
        Err(fault) => Err(fault),
        Ok(Some(FoundAt::Class { module: at, external })) => Ok(
            Some(make_base(at, name, external, display)),
        ),
        Ok(Some(FoundAt::Bound { module: at, binding })) => {
            let ghost site = (at@, name@);
            let mut followed = pairs_new();
            let _ = pairs_insert(&mut followed, (at, name.to_owned()));
            assert(names::pairs_of(followed) =~= set![site]);
            match follow_binding(index, binding, display, &mut followed) {
                Ok(base) => Ok(Some(base)),
                Err(fault) => Err(fault),
            }
        },
        Ok(None) => Ok(None),
    }
}

/// The class that a single name stands for in a module.
fn resolve_simple_base(index: &WorkspaceIndex, module: &ModuleInfo, name: &str, display: &str) -> (answer: Result<ResolvedBase, Fault>)
    requires
        index.wf(),
        module.wf(),
    ensures
        errors::follows(answer, simple_base(index@, module.deep_view(), name@, display@)),
{
    if module.has_class(name) {
        return Ok(
            ResolvedBase::Workspace {
                module: module.module_name.clone(),
                class_name: name.to_owned(),
                display: display.to_owned(),
            },
        );
    }
    if let Some(binding) = module.binding(name) {
        let mut followed = pairs_new();
        return follow_binding(index, binding, display, &mut followed);
    }
    match resolve_named_symbol(index, module.module_name.as_str(), name, display) {
        Err(fault) => {
            return Err(fault);
        },
        Ok(Some(base)) => {
            return Ok(base);
        },
        Ok(None) => {},
    }
    match resolve_named_symbol(index, "builtins", name, display) {
        Err(fault) => Err(fault),
        Ok(Some(base)) => Ok(base),
        Ok(None) => if same(name, "object") {
            Ok(
                ResolvedBase::External {
                    module: "builtins".to_owned(),
                    class_name: "object".to_owned(),
                    display: display.to_owned(),
                },
            )
        } else {
            Ok(ResolvedBase::Unresolved { display: display.to_owned() })
        },
    }
}

/// The class that a base or a type, as it is written in a module, stands for.
pub fn resolve_base(index: &WorkspaceIndex, module: &ModuleInfo, raw_base: &str) -> (answer: Result<ResolvedBase, Fault>)
    requires
        index.wf(),
        module.wf(),
    ensures
        errors::follows(answer, base_in(index@, module.deep_view(), raw_base@)),
{
    let head = normalize_type_head(raw_base);
    if has_char(raw_base, '=') || head.as_str().is_empty() {
        return Ok(ResolvedBase::Unresolved { display: raw_base.to_owned() });
    }
    let mut parts = split_text(head.as_str(), Some('.'));
    let ghost all = parts.deep_view();
    if parts.len() == 1 {
        assert(all[0] == parts@[0]@);
        return resolve_simple_base(index, module, parts[0].as_str(), raw_base);
    }
    assert(all[0] == parts@[0]@);
    if let Some(binding) = module.binding(parts[0].as_str()) {
        let _ = parts.remove(0);
        assert(parts.deep_view() =~= all.drop_first());
        return resolve_import_binding(index, binding, parts, raw_base);
    }
    let last = parts.pop().unwrap();
    assert(last@ == all.last());
    assert(parts.deep_view() =~= all.drop_last());
    Ok(
        ResolvedBase::External {
            module: join_text(&parts, "."),
            class_name: last,
            display: raw_base.to_owned(),
        },
    )
}

} // verus!
