//! The classes that a class inherits from, as a tree.
use rustc_hash::FxHashSet;
use vstd::prelude::*;

use crate::callables;
use crate::errors;
use crate::errors::QueryError;
use crate::errors::QueryErrorView;
use crate::index;
use crate::index::IndexView;
use crate::index::Lookup;
use crate::index::WorkspaceIndex;
use crate::model;
use crate::model::class_key;
use crate::model::BaseView;
use crate::model::ClassView;
use crate::model::FieldInfo;
use crate::model::FieldView;
use crate::model::MethodInfo;
use crate::model::MethodView;
use crate::model::ModuleInfo;
use crate::model::ModuleView;
use crate::model::ResolvedBase;
use crate::names;
use crate::names::names_insert;
use crate::names::names_remove;
use crate::resolve;
use crate::resolve::resolve_base;
use crate::text::has_char;
use crate::text::same;
use crate::text::Text;

verus! {

/// A class with the classes that it inherits from.
#[derive(Debug)]
pub struct HierarchyNode {
    pub name: String,
    pub module: String,
    pub display_base: String,
    pub path: Option<String>,
    pub line: Option<usize>,
    pub col: Option<usize>,
    pub external: bool,
    pub recursive: bool,
    pub raw_bases: Vec<String>,
    pub methods: Vec<MethodInfo>,
    pub fields: Vec<FieldInfo>,
    pub ancestors: Vec<HierarchyNode>,
}

/// What a node of the tree is.
#[verifier::ext_equal]
pub struct NodeView {
    pub name: Text,
    pub module: Text,
    pub display_base: Text,
    pub path: Option<Text>,
    pub line: Option<usize>,
    pub col: Option<usize>,
    pub external: bool,
    pub recursive: bool,
    pub raw_bases: Seq<Text>,
    pub methods: Seq<MethodView>,
    pub fields: Seq<FieldView>,
    pub ancestors: Seq<NodeView>,
}

/// What a node of the tree stands for.
pub open spec fn node_view(node: HierarchyNode) -> NodeView
    decreases node,
{
    NodeView {
        name: node.name@,
        module: node.module@,
        display_base: node.display_base@,
        path: node.path.deep_view(),
        line: node.line,
        col: node.col,
        external: node.external,
        recursive: node.recursive,
        raw_bases: node.raw_bases.deep_view(),
        methods: node.methods.deep_view(),
        fields: node.fields.deep_view(),
        ancestors: Seq::new(
            node.ancestors@.len(),
            |i: int|
                if 0 <= i < node.ancestors@.len() {
                    node_view(node.ancestors@[i])
                } else {
                    arbitrary()
                },
        ),
    }
}

impl DeepView for HierarchyNode {
    type V = NodeView;

    open spec fn deep_view(&self) -> NodeView {
        node_view(*self)
    }
}

/// A node without anything known of its class.
pub open spec fn leaf(name: Text, module: Text, display_base: Text, external: bool, recursive: bool) -> NodeView {
    NodeView {
        name,
        module,
        display_base,
        path: None,
        line: None,
        col: None,
        external,
        recursive,
        raw_bases: Seq::empty(),
        methods: Seq::empty(),
        fields: Seq::empty(),
        ancestors: Seq::empty(),
    }
}

/// The node of a class.
pub open spec fn class_root(info: ModuleView, class: ClassView, display_base: Text, external: bool, ancestors: Seq<NodeView>) -> NodeView {
    NodeView {
        name: class.name,
        module: info.module_name,
        display_base,
        path: Some(info.path),
        line: Some(class.line),
        col: Some(class.col),
        external,
        recursive: false,
        raw_bases: class.bases,
        methods: class.methods,
        fields: class.fields,
        ancestors,
    }
}

/// The keys of the classes of the modules at hand.
pub open spec fn class_keys(idx: IndexView) -> Set<Text> {
    callables::classes(idx).map(|p: (Text, Text)| model::class_key_of(p.0, p.1))
}

/// How many of those classes are not on a path.
pub open spec fn off_path(idx: IndexView, path: Set<Text>) -> nat {
    class_keys(idx).difference(path).len()
}

/// One more class on the path leaves fewer off it.
pub proof fn lemma_off_path(idx: IndexView, path: Set<Text>, module: Text, class: Text)
    requires
        idx.wf(),
        idx.lookup(module) is Known,
        idx.module(module).has_class(class),
        !path.contains(model::class_key_of(module, class)),
    ensures
        off_path(idx, path.insert(model::class_key_of(module, class))) < off_path(idx, path),
{
    let key = model::class_key_of(module, class);
    let all = callables::classes(idx);
    index::lemma_lookup(idx, module);
    callables::lemma_classes_finite(idx);
    all.lemma_map_finite(|p: (Text, Text)| model::class_key_of(p.0, p.1));
    assert(all.contains((module, class)));
    assert(class_keys(idx).contains(key));
    let left = class_keys(idx).difference(path);
    assert(left.contains(key));
    assert(class_keys(idx).difference(path.insert(key)) =~= left.remove(key));
}

/// Whether an error says that a name could not be followed, and not that something is missing.
pub open spec fn is_unfollowed(error: QueryErrorView) -> bool {
    error is Unfollowed
}

/// Whether there is no answer because a name could not be followed.
pub open spec fn gave_up<T>(answer: Result<T, QueryError>) -> bool {
    match answer {
        Ok(_) => false,
        Err(error) => error is Unfollowed,
    }
}

/// The tree below a class. A class on the path from the root, or one that turned out to be
/// missing before, is not entered again. The second part is the set of classes that turned out to
/// be missing so far.
pub open spec fn class_node(idx: IndexView, module: Text, class: Text, display: Text, path: Set<Text>, failed: Set<Text>) -> (Result<NodeView, QueryErrorView>, Set<Text>)
    decreases off_path(idx, path), 0nat, 0nat,
    when idx.wf()
{
    let key = model::class_key_of(module, class);
    if path.contains(key) || failed.contains(key) {
        (Ok(leaf(class, module, display, false, true)), failed)
    } else {
        match idx.lookup(module) {
            Lookup::Unknown => (
                Err(QueryErrorView::Unfollowed(errors::FaultView::NeedsModule(module))),
                failed,
            ),
            Lookup::Absent => (Err(QueryErrorView::ModuleMissing { module }), failed.insert(key)),
            Lookup::Known { module: info, external } => match info.class_named(class) {
                None => (
                    Err(QueryErrorView::ClassMissing { module, class_name: class }),
                    failed.insert(key),
                ),
                Some(found) => {
                    proof {
                        index::lemma_lookup(idx, module);
                        lemma_off_path(idx, path, module, class);
                    }
                    let (nodes, after) = base_nodes(
                        idx,
                        info,
                        found.bases,
                        path.insert(key),
                        failed,
                    );
                    match nodes {
                        Err(error) => (Err(error), after.insert(key)),
                        Ok(ancestors) => if ancestors.len() == 0 && found.name != "object"@ {
                            let (root, last) = class_node(
                                idx,
                                "builtins"@,
                                "object"@,
                                "object"@,
                                path.insert(key),
                                after,
                            );
                            match root {
                                Ok(node) => (
                                    Ok(class_root(info, found, display, external, seq![node])),
                                    last.remove(key),
                                ),
                                Err(error) => if is_unfollowed(error) {
                                    (Err(error), last)
                                } else {
                                    (
                                        Ok(
                                            class_root(
                                                info,
                                                found,
                                                display,
                                                external,
                                                Seq::empty(),
                                            ),
                                        ),
                                        last.remove(key),
                                    )
                                },
                            }
                        } else {
                            (
                                Ok(class_root(info, found, display, external, ancestors)),
                                after.remove(key),
                            )
                        },
                    }
                },
            },
        }
    }
}

/// The trees below the bases of a class, without its keyword arguments. A base from outside that
/// is missing has a node of its own.
pub open spec fn base_nodes(idx: IndexView, info: ModuleView, bases: Seq<Text>, path: Set<Text>, failed: Set<Text>) -> (Result<Seq<NodeView>, QueryErrorView>, Set<Text>)
    decreases off_path(idx, path), 1nat, bases.len(),
    when idx.wf()
{
    if bases.len() == 0 {
        (Ok(Seq::empty()), failed)
    } else {
        let (before, held) = base_nodes(idx, info, bases.drop_last(), path, failed);
        let raw = bases.last();
        match before {
            Err(error) => (Err(error), held),
            Ok(nodes) => if raw.contains('=') {
                (Ok(nodes), held)
            } else {
                match resolve::base_in(idx, info, raw) {
                    Err(fault) => (Err(QueryErrorView::Unfollowed(fault)), held),
                    Ok(BaseView::Workspace { module, class_name, display }) => {
                        let (node, after) = class_node(
                            idx,
                            module,
                            class_name,
                            display,
                            path,
                            held,
                        );
                        match node {
                            Ok(node) => (Ok(nodes.push(node)), after),
                            Err(error) => (Err(error), after),
                        }
                    },
                    Ok(BaseView::External { module, class_name, display }) => {
                        let (node, after) = class_node(
                            idx,
                            module,
                            class_name,
                            display,
                            path,
                            held,
                        );
                        match node {
                            Ok(node) => (Ok(nodes.push(node)), after),
                            Err(error) => if is_unfollowed(error) {
                                (Err(error), after)
                            } else {
                                (
                                    Ok(nodes.push(leaf(class_name, module, display, true, false))),
                                    after,
                                )
                            },
                        }
                    },
                    Ok(BaseView::Unresolved { display }) => (
                        Ok(nodes.push(leaf(display, Seq::empty(), display, true, false))),
                        held,
                    ),
                }
            },
        }
    }
}

/// Whether no class is entered twice on a way down the tree, given those entered on the way to it:
/// where one is met again, a node without anything below it says so.
pub open spec fn enters_once(node: NodeView, path: Set<Text>) -> bool
    decreases node,
{
    let key = model::class_key_of(node.module, node.name);
    &&& node.recursive ==> node.ancestors.len() == 0 && node.path is None
    &&& node.path is None ==> node.ancestors.len() == 0
    &&& node.path is Some ==> !path.contains(key) && forall|i: int|
        0 <= i < node.ancestors.len() ==> enters_once(#[trigger] node.ancestors[i], path.insert(key))
}

/// On no way down the tree of a class is a class entered twice.
pub proof fn law_no_class_is_entered_twice(idx: IndexView, module: Text, class: Text, display: Text, path: Set<Text>, failed: Set<Text>)
    requires
        idx.wf(),
    ensures
        class_node(idx, module, class, display, path, failed).0 matches Ok(node) ==> enters_once(node, path),
    decreases off_path(idx, path), 0nat, 0nat,
{
    let key = model::class_key_of(module, class);
    index::lemma_lookup(idx, module);
    if !path.contains(key) && !failed.contains(key) {
        if let Lookup::Known { module: info, external } = idx.lookup(module) {
            model::lemma_class_slot(info.classes, class);
            if let Some(found) = info.class_named(class) {
                lemma_off_path(idx, path, module, class);
                lemma_bases_enter_once(idx, info, found.bases, path.insert(key), failed);
                let after = base_nodes(idx, info, found.bases, path.insert(key), failed).1;
                law_no_class_is_entered_twice(
                    idx,
                    "builtins"@,
                    "object"@,
                    "object"@,
                    path.insert(key),
                    after,
                );
            }
        }
    }
}

proof fn lemma_bases_enter_once(idx: IndexView, info: ModuleView, bases: Seq<Text>, path: Set<Text>, failed: Set<Text>)
    requires
        idx.wf(),
    ensures
        base_nodes(idx, info, bases, path, failed).0 matches Ok(nodes) ==> forall|i: int|
            0 <= i < nodes.len() ==> enters_once(#[trigger] nodes[i], path),
    decreases off_path(idx, path), 1nat, bases.len(),
{
    if bases.len() > 0 {
        lemma_bases_enter_once(idx, info, bases.drop_last(), path, failed);
        let held = base_nodes(idx, info, bases.drop_last(), path, failed).1;
        match resolve::base_in(idx, info, bases.last()) {
            Ok(BaseView::Workspace { module, class_name, display }) => {
                law_no_class_is_entered_twice(idx, module, class_name, display, path, held);
            },
            Ok(BaseView::External { module, class_name, display }) => {
                law_no_class_is_entered_twice(idx, module, class_name, display, path, held);
            },
            _ => {},
        }
    }
}

/// A node without anything known of its class.
fn make_leaf(name: String, module: String, display_base: String, external: bool, recursive: bool) -> (node: HierarchyNode)
    ensures
        node.deep_view() == leaf(name@, module@, display_base@, external, recursive),
{
    let node = HierarchyNode {
        name,
        module,
        display_base,
        path: None,
        line: None,
        col: None,
        external,
        recursive,
        raw_bases: Vec::new(),
        methods: Vec::new(),
        fields: Vec::new(),
        ancestors: Vec::new(),
    };
    assert(node.deep_view().raw_bases =~= Seq::empty());
    assert(node.deep_view().methods =~= Seq::empty());
    assert(node.deep_view().fields =~= Seq::empty());
    assert(node.deep_view().ancestors =~= Seq::empty());
    node
}

/// The node of a class.
fn make_root(info: &ModuleInfo, class: &model::ClassInfo, display_base: &str, external: bool, ancestors: Vec<HierarchyNode>) -> (node: HierarchyNode)
    ensures
        node.deep_view() == class_root(
            info.deep_view(),
            class.deep_view(),
            display_base@,
            external,
            ancestors.deep_view(),
        ),
{
    let ghost below = ancestors.deep_view();
    let node = HierarchyNode {
        name: class.name.clone(),
        module: info.module_name.clone(),
        display_base: display_base.to_owned(),
        path: Some(info.path.clone()),
        line: Some(class.line),
        col: Some(class.col),
        external,
        recursive: false,
        raw_bases: class.bases.clone(),
        methods: class.methods.clone(),
        fields: class.fields.clone(),
        ancestors,
    };
    assert(node.raw_bases.deep_view() =~= class.bases.deep_view());
    assert(node.methods.deep_view() =~= class.methods.deep_view());
    assert(node.fields.deep_view() =~= class.fields.deep_view());
    assert(node.deep_view().ancestors =~= below);
    node
}

/// Whether an error says that a name could not be followed.
pub fn unfollowed(error: &QueryError) -> (r: bool)
    ensures
        r == is_unfollowed(error.deep_view()),
{
    match error {
        QueryError::Unfollowed(_) => true,
        _ => false,
    }
}

/// The tree below a class. `visited` holds the classes on the path from the root and those that
/// turned out to be missing.
pub(crate) fn build_class_node(
    index: &WorkspaceIndex,
    module: &str,
    class: &str,
    display: &str,
    visited: &mut FxHashSet<String>,
    Ghost(path): Ghost<Set<Text>>,
    Ghost(failed): Ghost<Set<Text>>,
) -> (answer: Result<HierarchyNode, QueryError>)
    requires
        index.wf(),
        names::names_of(*old(visited)) == path.union(failed),
    ensures
        errors::answers(answer, class_node(index@, module@, class@, display@, path, failed).0),
        !gave_up(answer) ==> names::names_of(*final(visited)) == path.union(
            class_node(index@, module@, class@, display@, path, failed).1,
        ),
    decreases off_path(index@, path), 0nat, 0nat,
{
    let ghost idx = index@;
    proof {
        index.lemma_view_wf();
        index::lemma_lookup(idx, module@);
    }
    let key = class_key(module, class);
    if !names_insert(visited, key.clone()) {
        assert(path.union(failed).insert(key@) =~= path.union(failed));
        return Ok(
            make_leaf(class.to_owned(), module.to_owned(), display.to_owned(), false, true),
        );
    }
    assert(path.union(failed).insert(key@) =~= path.union(failed.insert(key@)));
    let (info, external) = match index.get_module(module) {
        Err(fault) => {
            return Err(QueryError::Unfollowed(fault));
        },
        Ok(None) => {
            return Err(QueryError::ModuleMissing { module: module.to_owned() });
        },
        Ok(Some(found)) => found,
    };
    let found = match info.class_named(class) {
        Some(found) => found,
        None => {
            return Err(
                QueryError::ClassMissing {
                    module: module.to_owned(),
                    class_name: class.to_owned(),
                },
            );
        },
    };
    proof {
        lemma_off_path(idx, path, module@, class@);
    }
    let ghost inner = path.insert(key@);
    assert(path.union(failed).insert(key@) =~= inner.union(failed));
    let ghost after = base_nodes(idx, info.deep_view(), found.bases.deep_view(), inner, failed).1;
    let mut ancestors = match build_base_nodes(
        index,
        info,
        &found.bases,
        visited,
        Ghost(inner),
        Ghost(failed),
    ) {
        Err(error) => {
            assert(inner.union(after) =~= path.union(after.insert(key@)));
            return Err(error);
        },
        Ok(ancestors) => ancestors,
    };
    if ancestors.len() == 0 && !same(found.name.as_str(), "object") {
        let ghost last = class_node(idx, "builtins"@, "object"@, "object"@, inner, after).1;
        match build_class_node(
            index,
            "builtins",
            "object",
            "object",
            visited,
            Ghost(inner),
            Ghost(after),
        ) {
            Ok(node) => {
                let ghost viewed = node.deep_view();
                ancestors.push(node);
                assert(ancestors.deep_view() =~= seq![viewed]);
            },
            Err(error) => {
                if unfollowed(&error) {
                    return Err(error);
                }
                assert(ancestors.deep_view() =~= Seq::empty());
            },
        }
        names_remove(visited, key.as_str());
        assert(inner.union(last).remove(key@) =~= path.union(last.remove(key@)));
    } else {
        names_remove(visited, key.as_str());
        assert(inner.union(after).remove(key@) =~= path.union(after.remove(key@)));
    }
    Ok(make_root(info, found, display, external, ancestors))
}

/// The trees below the bases of a class.
fn build_base_nodes(
    index: &WorkspaceIndex,
    info: &ModuleInfo,
    bases: &Vec<String>,
    visited: &mut FxHashSet<String>,
    Ghost(path): Ghost<Set<Text>>,
    Ghost(failed): Ghost<Set<Text>>,
) -> (answer: Result<Vec<HierarchyNode>, QueryError>)
    requires
        index.wf(),
        info.wf(),
        names::names_of(*old(visited)) == path.union(failed),
    ensures
        errors::answers(
            answer,
            base_nodes(index@, info.deep_view(), bases.deep_view(), path, failed).0,
        ),
        !gave_up(answer) ==> names::names_of(*final(visited)) == path.union(
            base_nodes(index@, info.deep_view(), bases.deep_view(), path, failed).1,
        ),
    decreases off_path(index@, path), 1nat, bases.deep_view().len(),
{
    let ghost idx = index@;
    let ghost module = info.deep_view();
    let ghost all = bases.deep_view();
    proof {
        index.lemma_view_wf();
    }
    let mut nodes: Vec<HierarchyNode> = Vec::new();
    let mut i: usize = 0;
    assert(nodes.deep_view() =~= Seq::empty());
    while i < bases.len()
        invariant
            i <= bases@.len(),
            index.wf(),
            info.wf(),
            idx == index@,
            idx.wf(),
            module == info.deep_view(),
            all == bases.deep_view(),
            base_nodes(idx, module, all.take(i as int), path, failed).0 == Ok::<
                Seq<NodeView>,
                QueryErrorView,
            >(nodes.deep_view()),
            names::names_of(*visited) == path.union(
                base_nodes(idx, module, all.take(i as int), path, failed).1,
            ),
        decreases bases@.len() - i,
    {
        let ghost now = all.take(i as int + 1);
        let ghost before = nodes.deep_view();
        let ghost held = base_nodes(idx, module, all.take(i as int), path, failed).1;
        assert(now.drop_last() =~= all.take(i as int));
        assert(now.last() == bases@[i as int]@);
        let raw = bases[i].as_str();
        if !has_char(raw, '=') {
            match resolve_base(index, info, raw) {
                Err(fault) => {
                    proof {
                        lemma_base_error(idx, module, all, i as int + 1, path, failed);
                    }
                    return Err(QueryError::Unfollowed(fault));
                },
                Ok(ResolvedBase::Workspace { module: base_module, class_name, display }) => {
                    match build_class_node(
                        index,
                        base_module.as_str(),
                        class_name.as_str(),
                        display.as_str(),
                        visited,
                        Ghost(path),
                        Ghost(held),
                    ) {
                        Ok(node) => {
                            let ghost viewed = node.deep_view();
                            nodes.push(node);
                            assert(nodes.deep_view() =~= before.push(viewed));
                        },
                        Err(error) => {
                            proof {
                                lemma_base_error(idx, module, all, i as int + 1, path, failed);
                            }
                            return Err(error);
                        },
                    }
                },
                Ok(ResolvedBase::External { module: base_module, class_name, display }) => {
                    match build_class_node(
                        index,
                        base_module.as_str(),
                        class_name.as_str(),
                        display.as_str(),
                        visited,
                        Ghost(path),
                        Ghost(held),
                    ) {
                        Ok(node) => {
                            let ghost viewed = node.deep_view();
                            nodes.push(node);
                            assert(nodes.deep_view() =~= before.push(viewed));
                        },
                        Err(error) => {
                            if unfollowed(&error) {
                                proof {
                                    lemma_base_error(idx, module, all, i as int + 1, path, failed);
                                }
                                return Err(error);
                            }
                            let node = make_leaf(class_name, base_module, display, true, false);
                            let ghost viewed = node.deep_view();
                            nodes.push(node);
                            assert(nodes.deep_view() =~= before.push(viewed));
                        },
                    }
                },
                Ok(ResolvedBase::Unresolved { display }) => {
                    let node = make_leaf(display.clone(), String::new(), display, true, false);
                    let ghost viewed = node.deep_view();
                    assert(viewed.module =~= Seq::empty());
                    nodes.push(node);
                    assert(nodes.deep_view() =~= before.push(viewed));
                },
            }
        }
        i = i + 1;
    }
    assert(all.take(i as int) =~= all);
    Ok(nodes)
}

/// An error at one base is the error of all.
proof fn lemma_base_error(idx: IndexView, info: ModuleView, bases: Seq<Text>, n: int, path: Set<Text>, failed: Set<Text>)
    requires
        idx.wf(),
        0 <= n <= bases.len(),
        base_nodes(idx, info, bases.take(n), path, failed).0 is Err,
    ensures
        base_nodes(idx, info, bases, path, failed) == base_nodes(
            idx,
            info,
            bases.take(n),
            path,
            failed,
        ),
    decreases bases.len() - n,
{
    if n == bases.len() {
        assert(bases.take(n) =~= bases);
    } else {
        assert(bases.take(n + 1).drop_last() =~= bases.take(n));
        lemma_base_error(idx, info, bases, n + 1, path, failed);
    }
}

} // verus!
