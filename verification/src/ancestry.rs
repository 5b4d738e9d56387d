//! What the tree of a class holds: every class that it inherits from, as it is.
use vstd::prelude::*;

use crate::hierarchy;
use crate::hierarchy::NodeView;
use crate::index;
use crate::index::IndexView;
use crate::model;
use crate::model::BaseView;
use crate::model::ModuleView;
use crate::resolve;
use crate::showing;
use crate::text::Text;

verus! {

/// The bases of a class without its keyword arguments, in their order.
pub open spec fn written_bases(bases: Seq<Text>) -> Seq<Text>
    decreases bases.len(),
{
    if bases.len() == 0 {
        Seq::empty()
    } else if bases.last().contains('=') {
        written_bases(bases.drop_last())
    } else {
        written_bases(bases.drop_last()).push(bases.last())
    }
}

/// Whether a node names a class and holds nothing of it.
pub open spec fn only_names(node: NodeView, name: Text, module: Text, display: Text) -> bool {
    &&& node.name == name && node.module == module && node.display_base == display
    &&& node.path is None && node.line is None && node.col is None
    &&& node.raw_bases.len() == 0 && node.methods.len() == 0 && node.fields.len() == 0
    &&& node.ancestors.len() == 0
}

/// Whether a node holds a class as it is, with a node for each of its bases that is no keyword
/// argument, in their order. A class without bases inherits from `object`, unless it is called so
/// itself or `object` is not at hand.
#[verifier::opaque]
pub open spec fn holds_class(idx: IndexView, node: NodeView, module: Text, class: Text, display: Text, path: Set<Text>) -> bool
    decreases node, 0nat,
{
    let inner = path.insert(model::class_key_of(module, class));
    match showing::class_there(idx, module, class) {
        None => false,
        Some((info, found)) => {
            let written = written_bases(found.bases);
            &&& node.name == class && node.module == module && node.display_base == display
            &&& node.path == Some(info.path) && node.line == Some(found.line) && node.col == Some(found.col)
            &&& node.external == showing::is_outside(idx, module) && !node.recursive
            &&& node.raw_bases == found.bases && node.methods == found.methods && node.fields == found.fields
            &&& written.len() > 0 ==> {
                &&& node.ancestors.len() == written.len()
                &&& forall|i: int|
                    0 <= i < node.ancestors.len() ==> holds_base(
                        idx,
                        #[trigger] node.ancestors[i],
                        info,
                        written[i],
                        inner,
                    )
            }
            &&& written.len() == 0 ==> {
                &&& node.ancestors.len() <= 1
                &&& class == "object"@ ==> node.ancestors.len() == 0
                &&& class != "object"@ && showing::class_there(idx, "builtins"@, "object"@) is Some
                    ==> node.ancestors.len() == 1
                &&& forall|i: int|
                    0 <= i < node.ancestors.len() ==> holds_named(
                        idx,
                        #[trigger] node.ancestors[i],
                        "builtins"@,
                        "object"@,
                        "object"@,
                        inner,
                    )
            }
        },
    }
}

/// Whether a node stands for a class: it holds the class, where it is at hand and not on the way
/// to the node; else it only names it and says that there is no more to it.
#[verifier::opaque]
pub open spec fn holds_named(idx: IndexView, node: NodeView, module: Text, class: Text, display: Text, path: Set<Text>) -> bool
    decreases node, 1nat,
{
    if path.contains(model::class_key_of(module, class)) || showing::class_there(idx, module, class) is None {
        only_names(node, class, module, display) && node.recursive && !node.external
    } else {
        holds_class(idx, node, module, class, display, path)
    }
}

/// Whether a node stands for a base as it is written in a module: for the class that the base is, or,
/// where there is no such class at hand, for a class from outside of which only the name is known.
#[verifier::opaque]
pub open spec fn holds_base(idx: IndexView, node: NodeView, info: ModuleView, raw: Text, path: Set<Text>) -> bool
    decreases node, 2nat,
{
    match resolve::base_in(idx, info, raw) {
        Err(_) => false,
        Ok(BaseView::Unresolved { display }) => only_names(node, display, Seq::empty(), display) && node.external
            && !node.recursive,
        Ok(BaseView::Workspace { module, class_name, display }) => holds_named(
            idx,
            node,
            module,
            class_name,
            display,
            path,
        ),
        Ok(BaseView::External { module, class_name, display }) => {
            ||| holds_named(idx, node, module, class_name, display, path)
            ||| showing::class_there(idx, module, class_name) is None && only_names(
                node,
                class_name,
                module,
                display,
            ) && node.external && !node.recursive
        },
    }
}

/// Whether no other class has the key of a class at hand.
pub open spec fn keys_are_telling(idx: IndexView) -> bool {
    forall|m: Text, c: Text, n: Text, d: Text|
        showing::class_there(idx, m, c) is Some && #[trigger] model::class_key_of(m, c)
            == #[trigger] model::class_key_of(n, d) ==> m == n && c == d
}

/// Whether no class at hand is among those that turned out to be missing.
pub open spec fn all_missing(idx: IndexView, failed: Set<Text>) -> bool {
    forall|m: Text, c: Text|
        showing::class_there(idx, m, c) is Some ==> !failed.contains(#[trigger] model::class_key_of(m, c))
}

/// The tree of a class holds the class and every class that it inherits from, as they are. There is
/// one wherever the class is at hand, unless a name on the way could not be followed.
pub proof fn law_hierarchies_hold_every_base(idx: IndexView, module: Text, class: Text, display: Text, path: Set<Text>, failed: Set<Text>)
    requires
        idx.wf(),
        keys_are_telling(idx),
        all_missing(idx, failed),
    ensures
        match hierarchy::class_node(idx, module, class, display, path, failed) {
            (Ok(node), after) => holds_named(idx, node, module, class, display, path) && all_missing(idx, after),
            (Err(error), after) => error is Unfollowed || (showing::class_there(idx, module, class) is None
                && all_missing(idx, after)),
        },
    decreases hierarchy::off_path(idx, path), 0nat, 0nat,
{
    let key = model::class_key_of(module, class);
    let inner = path.insert(key);
    index::lemma_lookup(idx, module);
    assert(showing::class_there(idx, module, class) is Some ==> !failed.contains(key));
    if path.contains(key) || failed.contains(key) {
        reveal_with_fuel(holds_named, 1);
    } else if let Some((info, found)) = showing::class_there(idx, module, class) {
        model::lemma_class_slot(info.classes, class);
        hierarchy::lemma_off_path(idx, path, module, class);
        lemma_bases(idx, module, found.bases, inner, failed);
        let (nodes, after) = hierarchy::base_nodes(idx, info, found.bases, inner, failed);
        if let Ok(ancestors) = nodes {
            law_hierarchies_hold_every_base(idx, "builtins"@, "object"@, "object"@, inner, after);
            let (answer, last) = hierarchy::class_node(idx, module, class, display, path, failed);
            if let Ok(node) = answer {
                lemma_node(idx, node, module, class, display, path);
            }
        }
    } else {
        assert(all_missing(idx, failed.insert(key)));
    }
}

proof fn lemma_node(idx: IndexView, node: NodeView, module: Text, class: Text, display: Text, path: Set<Text>)
    requires
        !path.contains(model::class_key_of(module, class)),
        showing::class_there(idx, module, class) matches Some((info, found)) && {
            let inner = path.insert(model::class_key_of(module, class));
            let written = written_bases(found.bases);
            &&& found.name == class && info.module_name == module
            &&& node == hierarchy::class_root(
                info,
                found,
                display,
                showing::is_outside(idx, module),
                node.ancestors,
            )
            &&& written.len() > 0 ==> node.ancestors.len() == written.len() && forall|i: int|
                0 <= i < node.ancestors.len() ==> holds_base(
                    idx,
                    #[trigger] node.ancestors[i],
                    info,
                    written[i],
                    inner,
                )
            &&& written.len() == 0 ==> {
                &&& node.ancestors.len() <= 1
                &&& class == "object"@ ==> node.ancestors.len() == 0
                &&& class != "object"@ && showing::class_there(idx, "builtins"@, "object"@) is Some
                    ==> node.ancestors.len() == 1
                &&& forall|i: int|
                    0 <= i < node.ancestors.len() ==> holds_named(
                        idx,
                        #[trigger] node.ancestors[i],
                        "builtins"@,
                        "object"@,
                        "object"@,
                        inner,
                    )
            }
        },
    ensures
        holds_named(idx, node, module, class, display, path),
{
    reveal_with_fuel(holds_base, 1);
    reveal_with_fuel(holds_class, 1);
    reveal_with_fuel(holds_named, 1);
}

proof fn lemma_bases(idx: IndexView, name: Text, bases: Seq<Text>, path: Set<Text>, failed: Set<Text>)
    requires
        idx.wf(),
        keys_are_telling(idx),
        all_missing(idx, failed),
        idx.lookup(name) is Known,
    ensures
        match hierarchy::base_nodes(idx, idx.module(name), bases, path, failed) {
            (Ok(nodes), after) => {
                &&& all_missing(idx, after)
                &&& nodes.len() == written_bases(bases).len()
                &&& forall|i: int|
                    0 <= i < nodes.len() ==> holds_base(
                        idx,
                        #[trigger] nodes[i],
                        idx.module(name),
                        written_bases(bases)[i],
                        path,
                    )
            },
            (Err(error), _) => error is Unfollowed,
        },
    decreases hierarchy::off_path(idx, path), 1nat, bases.len(),
{
    if bases.len() > 0 {
        let info = idx.module(name);
        let front = bases.drop_last();
        let raw = bases.last();
        lemma_bases(idx, name, front, path, failed);
        let (before, held) = hierarchy::base_nodes(idx, info, front, path, failed);
        if before is Ok && !raw.contains('=') {
            resolve::lemma_workspace_bases_are_there(idx, name, raw);
            match resolve::base_in(idx, info, raw) {
                Ok(BaseView::Workspace { module, class_name, display }) => {
                    index::lemma_lookup(idx, module);
                    law_hierarchies_hold_every_base(idx, module, class_name, display, path, held);
                },
                Ok(BaseView::External { module, class_name, display }) => {
                    law_hierarchies_hold_every_base(idx, module, class_name, display, path, held);
                },
                _ => {},
            }
            let (answer, after) = hierarchy::base_nodes(idx, info, bases, path, failed);
            if let Ok(nodes) = answer {
                let last = nodes.last();
                assert(holds_base(idx, last, info, raw, path)) by {
                    reveal_with_fuel(holds_named, 1);
                    reveal_with_fuel(holds_base, 1);
                }
                assert forall|i: int| 0 <= i < nodes.len() implies holds_base(
                    idx,
                    #[trigger] nodes[i],
                    info,
                    written_bases(bases)[i],
                    path,
                ) by {
                    if i < before->Ok_0.len() {
                        assert(nodes[i] == before->Ok_0[i]);
                    }
                }
            }
        }
    }
}

} // verus!
