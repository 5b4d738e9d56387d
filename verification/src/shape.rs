//! How large a hierarchy is.
use vstd::prelude::*;

use crate::hierarchy::HierarchyNode;
use crate::hierarchy::NodeView;

verus! {

/// How many classes, methods and fields a hierarchy shows, and how deep it is.
#[derive(Debug, Clone, Copy, PartialEq, Eq, Structural)]
pub struct HierarchyShape {
    pub class_nodes: usize,
    pub method_count: usize,
    pub field_count: usize,
    pub max_depth: usize,
}

/// The size of a hierarchy.
pub struct Size {
    pub nodes: nat,
    pub methods: nat,
    pub fields: nat,
    pub depth: nat,
}

/// The size of a hierarchy: its root, and all below it.
pub open spec fn size_of(node: NodeView) -> Size
    decreases node,
{
    let below = size_of_all(node.ancestors);
    Size {
        nodes: 1 + below.nodes,
        methods: node.methods.len() + below.methods,
        fields: node.fields.len() + below.fields,
        depth: 1 + below.depth,
    }
}

/// The size of several hierarchies side by side.
pub open spec fn size_of_all(nodes: Seq<NodeView>) -> Size
    decreases nodes,
{
    if nodes.len() == 0 {
        Size { nodes: 0, methods: 0, fields: 0, depth: 0 }
    } else {
        let before = size_of_all(nodes.drop_last());
        let last = size_of(nodes.last());
        Size {
            nodes: before.nodes + last.nodes,
            methods: before.methods + last.methods,
            fields: before.fields + last.fields,
            depth: if before.depth > last.depth {
                before.depth
            } else {
                last.depth
            },
        }
    }
}

/// Whether a size can be counted.
pub open spec fn countable(size: Size) -> bool {
    size.nodes <= usize::MAX && size.methods <= usize::MAX && size.fields <= usize::MAX
}

/// Whether a shape is that of a size.
pub open spec fn is_shape(shape: HierarchyShape, size: Size) -> bool {
    shape.class_nodes == size.nodes && shape.method_count == size.methods && shape.field_count
        == size.fields && shape.max_depth == size.depth
}

/// A hierarchy is no deeper than it has nodes.
pub proof fn law_depth_is_at_most_the_number_of_nodes(node: NodeView)
    ensures
        1 <= size_of(node).depth <= size_of(node).nodes,
    decreases node,
{
    lemma_depths(node.ancestors);
}

proof fn lemma_depths(nodes: Seq<NodeView>)
    ensures
        size_of_all(nodes).depth <= size_of_all(nodes).nodes,
    decreases nodes,
{
    if nodes.len() > 0 {
        lemma_depths(nodes.drop_last());
        law_depth_is_at_most_the_number_of_nodes(nodes.last());
    }
}

proof fn lemma_more_is_larger(nodes: Seq<NodeView>, n: int)
    requires
        0 <= n <= nodes.len(),
    ensures
        size_of_all(nodes.take(n)).nodes <= size_of_all(nodes).nodes,
        size_of_all(nodes.take(n)).methods <= size_of_all(nodes).methods,
        size_of_all(nodes.take(n)).fields <= size_of_all(nodes).fields,
    decreases nodes.len() - n,
{
    if n == nodes.len() {
        assert(nodes.take(n) =~= nodes);
    } else {
        lemma_more_is_larger(nodes, n + 1);
        assert(nodes.take(n + 1).drop_last() =~= nodes.take(n));
    }
}

/// How many classes, methods and fields a hierarchy shows, and how deep it is; nothing where a
/// number is too large to be counted.
pub fn collect_hierarchy_shape(root: &HierarchyNode) -> (shape: Option<HierarchyShape>)
    ensures
        shape is Some <==> countable(size_of(root.deep_view())),
        shape is Some ==> is_shape(shape->0, size_of(root.deep_view())),
    decreases *root,
{
    let ghost viewed = root.deep_view();
    let ghost all = viewed.ancestors;
    assert(viewed.methods.len() == root.methods@.len());
    assert(viewed.fields.len() == root.fields@.len());
    let mut shape = HierarchyShape {
        class_nodes: 1,
        method_count: root.methods.len(),
        field_count: root.fields.len(),
        max_depth: 1,
    };
    let mut i: usize = 0;
    assert(size_of_all(all.take(0)).nodes == 0);
    while i < root.ancestors.len()
        invariant
            i <= root.ancestors@.len(),
            all.len() == root.ancestors@.len(),
            viewed == root.deep_view(),
            all == viewed.ancestors,
            forall|k: int| 0 <= k < all.len() ==> #[trigger] all[k] == root.ancestors@[k].deep_view(),
            shape.class_nodes == 1 + size_of_all(all.take(i as int)).nodes,
            shape.method_count == viewed.methods.len() + size_of_all(all.take(i as int)).methods,
            shape.field_count == viewed.fields.len() + size_of_all(all.take(i as int)).fields,
            shape.max_depth == 1 + size_of_all(all.take(i as int)).depth,
        decreases root.ancestors@.len() - i,
    {
        let ghost now = all.take(i as int + 1);
        assert(now.drop_last() =~= all.take(i as int));
        assert(now.last() == root.ancestors@[i as int].deep_view());
        proof {
            lemma_more_is_larger(all, i as int + 1);
            lemma_depths(now);
        }
        let below = match collect_hierarchy_shape(&root.ancestors[i]) {
            Some(below) => below,
            None => {
                return None;
            },
        };
        match (
            shape.class_nodes.checked_add(below.class_nodes),
            shape.method_count.checked_add(below.method_count),
            shape.field_count.checked_add(below.field_count),
        ) {
            (Some(class_nodes), Some(method_count), Some(field_count)) => {
                let max_depth = if shape.max_depth > below.max_depth {
                    shape.max_depth
                } else {
                    below.max_depth + 1
                };
                shape = HierarchyShape { class_nodes, method_count, field_count, max_depth };
            },
            _ => {
                return None;
            },
        }
        i = i + 1;
    }
    assert(all.take(i as int) =~= all);
    Some(shape)
}

} // verus!
