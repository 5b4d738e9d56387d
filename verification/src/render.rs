//! Trees as a picker shows them: classes above, classes below, and calls.
use rustc_hash::FxHashSet;
use vstd::prelude::*;

use crate::errors;
use crate::errors::Fault;
use crate::errors::FaultView;
use crate::errors::QueryError;
use crate::errors::QueryErrorView;
use crate::hierarchy;
use crate::hierarchy::unfollowed;
use crate::index;
use crate::index::IndexView;
use crate::index::Lookup;
use crate::index::WorkspaceIndex;
use crate::model;
use crate::model::class_key;
use crate::model::BaseView;
use crate::model::ClassInfo;
use crate::model::ClassView;
use crate::model::FieldInfo;
use crate::model::FieldView;
use crate::model::MethodInfo;
use crate::model::MethodView;
use crate::model::ModuleInfo;
use crate::model::ModuleView;
use crate::model::ResolvedBase;
use crate::names;
use crate::names::names_insert;
use crate::names::names_remove;
use crate::paths;
use crate::paths::order_key_of;
use crate::resolve;
use crate::resolve::resolve_base;
use crate::sorting;
use crate::sorting::key_of_text;
use crate::sorting::sort_keyed;
use crate::sorting::Key;
use crate::text;
use crate::text::has_char;
use crate::text::same;
use crate::text::tail_after;
use crate::text::Text;

verus! {

/// A row of a tree: where it is shown, where it leads to, and the rows below it.
#[derive(Debug)]
pub struct RenderNode {
    pub kind: String,
    pub name: String,
    pub path: String,
    pub line: usize,
    pub col: usize,
    pub target_path: String,
    pub target_line: usize,
    pub target_col: usize,
    pub external: bool,
    pub recursive: bool,
    pub detail: String,
    pub required: bool,
    pub type_ref: Option<String>,
    pub type_label: Option<String>,
    pub truncated: bool,
    pub children: Vec<RenderNode>,
}

/// What a row is.
#[verifier::ext_equal]
pub struct RowView {
    pub kind: Text,
    pub name: Text,
    pub path: Text,
    pub line: usize,
    pub col: usize,
    pub target_path: Text,
    pub target_line: usize,
    pub target_col: usize,
    pub external: bool,
    pub recursive: bool,
    pub detail: Text,
    pub required: bool,
    pub type_ref: Option<Text>,
    pub type_label: Option<Text>,
    pub truncated: bool,
    pub children: Seq<RowView>,
}

/// What a row stands for.
pub open spec fn row_view(node: RenderNode) -> RowView
    decreases node,
{
    RowView {
        kind: node.kind@,
        name: node.name@,
        path: node.path@,
        line: node.line,
        col: node.col,
        target_path: node.target_path@,
        target_line: node.target_line,
        target_col: node.target_col,
        external: node.external,
        recursive: node.recursive,
        detail: node.detail@,
        required: node.required,
        type_ref: node.type_ref.deep_view(),
        type_label: node.type_label.deep_view(),
        truncated: node.truncated,
        children: Seq::new(
            node.children@.len(),
            |i: int|
                if 0 <= i < node.children@.len() {
                    row_view(node.children@[i])
                } else {
                    arbitrary()
                },
        ),
    }
}

impl DeepView for RenderNode {
    type V = RowView;

    open spec fn deep_view(&self) -> RowView {
        row_view(*self)
    }
}

/// A position in a file.
pub struct Place {
    pub path: Text,
    pub line: usize,
    pub col: usize,
}

/// A row without anything below it.
pub open spec fn row(kind: Text, name: Text, shown: Place, target: Place, external: bool) -> RowView {
    RowView {
        kind,
        name,
        path: shown.path,
        line: shown.line,
        col: shown.col,
        target_path: target.path,
        target_line: target.line,
        target_col: target.col,
        external,
        recursive: false,
        detail: Seq::empty(),
        required: false,
        type_ref: None,
        type_label: None,
        truncated: false,
        children: Seq::empty(),
    }
}

/// What orders rows: path, line, column and name.
pub open spec fn row_key(node: RowView) -> Key {
    paths::order_key(node.path).push(0).push(node.line as u64).push(node.col as u64)
        + sorting::text_key(node.name)
}

/// Rows in order.
pub open spec fn ordered_rows(nodes: Seq<RowView>) -> Seq<RowView> {
    sorting::sorted(nodes, |node: RowView| row_key(node))
}

/// Rows are ordered by path, then by line, then by column, then by name.
pub proof fn law_rows_are_ordered_by_place(a: RowView, b: RowView)
    ensures
        sorting::key_le(row_key(a), row_key(b)) == (if paths::plain(a.path) != paths::plain(b.path) {
            sorting::key_le(paths::order_key(a.path), paths::order_key(b.path))
        } else if a.line != b.line {
            a.line < b.line
        } else if a.col != b.col {
            a.col < b.col
        } else {
            sorting::key_le(sorting::text_key(a.name), sorting::text_key(b.name))
        }),
{
    let name_a = sorting::text_key(a.name);
    let name_b = sorting::text_key(b.name);
    let x = seq![a.line as u64, a.col as u64] + name_a;
    let y = seq![b.line as u64, b.col as u64] + name_b;
    assert(row_key(a) =~= paths::order_key(a.path).push(0) + x);
    assert(row_key(b) =~= paths::order_key(b.path).push(0) + y);
    sorting::lemma_path_keys_are_positive(paths::components(a.path));
    sorting::lemma_path_keys_are_positive(paths::components(b.path));
    sorting::law_first_part_decides(
        paths::order_key(a.path),
        paths::order_key(b.path),
        x,
        y,
    );
    paths::law_path_keys_tell_paths_apart(a.path, b.path);
    if paths::plain(a.path) == paths::plain(b.path) {
        reveal_with_fuel(sorting::key_le, 3);
        assert(x.drop_first() =~= seq![a.col as u64] + name_a);
        assert(y.drop_first() =~= seq![b.col as u64] + name_b);
        assert(x.drop_first().drop_first() =~= name_a);
        assert(y.drop_first().drop_first() =~= name_b);
    }
}

/// The row of a method.
pub open spec fn method_row(info: ModuleView, method: MethodView, external: bool) -> RowView {
    let at = Place { path: info.path, line: method.line, col: method.col };
    row("method"@, method.name, at, at, external)
}

/// Whether the type of a field is a class with members.
pub open spec fn has_members(idx: IndexView, info: ModuleView, field: FieldView) -> Result<bool, FaultView> {
    match field.type_ref {
        None => Ok(false),
        Some(type_ref) => match resolve::base_in(idx, info, type_ref) {
            Err(fault) => Err(fault),
            Ok(BaseView::Unresolved { .. }) => Ok(false),
            Ok(BaseView::Workspace { module, class_name, .. }) => class_has_members(
                idx,
                module,
                class_name,
            ),
            Ok(BaseView::External { module, class_name, .. }) => class_has_members(
                idx,
                module,
                class_name,
            ),
        },
    }
}

/// Whether a class is at hand and has members.
pub open spec fn class_has_members(idx: IndexView, module: Text, class_name: Text) -> Result<bool, FaultView> {
    match idx.lookup(module) {
        Lookup::Unknown => Err(FaultView::NeedsModule(module)),
        Lookup::Absent => Ok(false),
        Lookup::Known { module: info, .. } => match info.class_named(class_name) {
            Some(class) => Ok(class.fields.len() > 0 || class.methods.len() > 0),
            None => Ok(false),
        },
    }
}

/// The row of a field.
pub open spec fn field_row(idx: IndexView, info: ModuleView, field: FieldView) -> Result<RowView, FaultView> {
    let at = Place { path: info.path, line: field.line, col: field.col };
    match has_members(idx, info, field) {
        Err(fault) => Err(fault),
        Ok(opens) => Ok(
            RowView {
                detail: field.annotation,
                required: field.required,
                type_ref: field.type_ref,
                type_label: match field.type_ref {
                    Some(type_ref) => Some(text::after_last(type_ref, '.')),
                    None => None,
                },
                ..row(
                    if opens {
                        "field_object"@
                    } else {
                        "field"@
                    },
                    field.name,
                    at,
                    at,
                    false,
                )
            },
        ),
    }
}

/// The rows of fields.
pub open spec fn field_rows(idx: IndexView, info: ModuleView, fields: Seq<FieldView>) -> Result<Seq<RowView>, FaultView>
    decreases fields.len(),
{
    if fields.len() == 0 {
        Ok(Seq::empty())
    } else {
        match field_rows(idx, info, fields.drop_last()) {
            Err(fault) => Err(fault),
            Ok(before) => match field_row(idx, info, fields.last()) {
                Err(fault) => Err(fault),
                Ok(last) => Ok(before.push(last)),
            },
        }
    }
}

/// The rows of the members of a class: its fields, then its methods.
pub open spec fn member_rows(idx: IndexView, info: ModuleView, class: ClassView, external: bool) -> Result<Seq<RowView>, FaultView> {
    match field_rows(idx, info, class.fields) {
        Err(fault) => Err(fault),
        Ok(fields) => Ok(
            fields + class.methods.map_values(
                |method: MethodView| method_row(info, method, external),
            ),
        ),
    }
}

/// The row of a class, without anything below it.
pub open spec fn class_row(info: ModuleView, class: ClassView, external: bool) -> RowView {
    let at = Place { path: info.path, line: class.line, col: class.col };
    row("class"@, class.name, at, at, external)
}

/// The class of a module and a name, with its module and whether it lies outside the workspace.
pub open spec fn class_at(idx: IndexView, module: Text, class: Text) -> Result<(ModuleView, ClassView, bool), QueryErrorView> {
    match idx.lookup(module) {
        Lookup::Unknown => Err(QueryErrorView::Unfollowed(FaultView::NeedsModule(module))),
        Lookup::Absent => Err(QueryErrorView::ModuleMissing { module }),
        Lookup::Known { module: info, external } => match info.class_named(class) {
            Some(found) => Ok((info, found, external)),
            None => Err(QueryErrorView::ClassMissing { module, class_name: class }),
        },
    }
}

/// The rows of a class and the classes that it inherits from. A class on the path from the root
/// is not entered again.
pub open spec fn super_row(idx: IndexView, module: Text, class: Text, path: Set<Text>) -> Result<RowView, QueryErrorView>
    decreases hierarchy::off_path(idx, path), 0nat, 0nat,
    when idx.wf()
{
    let key = model::class_key_of(module, class);
    match class_at(idx, module, class) {
        Err(error) => Err(error),
        Ok((info, found, external)) => {
            let node = class_row(info, found, external);
            if path.contains(key) {
                Ok(RowView { recursive: true, ..node })
            } else {
                proof {
                    index::lemma_lookup(idx, module);
                    hierarchy::lemma_off_path(idx, path, module, class);
                }
                let above = super_rows(idx, info, found.bases, path.insert(key));
                let root = super_row(idx, "builtins"@, "object"@, path.insert(key));
                match (member_rows(idx, info, found, external), above) {
                    (Err(fault), _) => Err(QueryErrorView::Unfollowed(fault)),
                    (_, Err(error)) => Err(error),
                    (Ok(members), Ok(rows)) => if rows.len() == 0 && found.name != "object"@ {
                        match root {
                            Ok(object) => Ok(
                                RowView { children: members + ordered_rows(seq![object]), ..node },
                            ),
                            Err(error) => if hierarchy::is_unfollowed(error) {
                                Err(error)
                            } else {
                                Ok(RowView { children: members, ..node })
                            },
                        }
                    } else {
                        Ok(RowView { children: members + ordered_rows(rows), ..node })
                    },
                }
            }
        },
    }
}

/// The rows of the bases of a class that are at hand, without its keyword arguments.
pub open spec fn super_rows(idx: IndexView, info: ModuleView, bases: Seq<Text>, path: Set<Text>) -> Result<Seq<RowView>, QueryErrorView>
    decreases hierarchy::off_path(idx, path), 1nat, bases.len(),
    when idx.wf()
{
    if bases.len() == 0 {
        Ok(Seq::empty())
    } else {
        let before = super_rows(idx, info, bases.drop_last(), path);
        let raw = bases.last();
        match before {
            Err(error) => Err(error),
            Ok(rows) => if raw.contains('=') {
                Ok(rows)
            } else {
                match resolve::base_in(idx, info, raw) {
                    Err(fault) => Err(QueryErrorView::Unfollowed(fault)),
                    Ok(BaseView::Unresolved { .. }) => Ok(rows),
                    Ok(BaseView::Workspace { module, class_name, .. }) => with_row(
                        rows,
                        super_row(idx, module, class_name, path),
                    ),
                    Ok(BaseView::External { module, class_name, .. }) => with_row(
                        rows,
                        super_row(idx, module, class_name, path),
                    ),
                }
            },
        }
    }
}

/// The rows, with one more where there is one. What is missing has no row.
pub open spec fn with_row(rows: Seq<RowView>, last: Result<RowView, QueryErrorView>) -> Result<Seq<RowView>, QueryErrorView> {
    match last {
        Ok(node) => Ok(rows.push(node)),
        Err(error) => if hierarchy::is_unfollowed(error) {
            Err(error)
        } else {
            Ok(rows)
        },
    }
}

/// The classes listed as subtypes that are there, with their modules.
pub open spec fn listed_classes(idx: IndexView, pairs: Seq<(Text, Text)>) -> Seq<(Text, ClassView)>
    decreases pairs.len(),
{
    if pairs.len() == 0 {
        Seq::empty()
    } else {
        let before = listed_classes(idx, pairs.drop_last());
        let (module, class) = pairs.last();
        if idx.workspace.contains_key(module) {
            match idx.workspace[module].class_named(class) {
                Some(found) => before.push((module, found)),
                None => before,
            }
        } else {
            before
        }
    }
}

/// The subtypes listed for a class.
pub open spec fn listed_subtypes(idx: IndexView, module: Text, class: Text) -> Seq<(Text, Text)> {
    let key = model::class_key_of(module, class);
    if idx.subtypes.contains_key(key) {
        idx.subtypes[key]
    } else {
        Seq::empty()
    }
}

/// What orders subtypes: module, line, column and name.
pub open spec fn subtype_key(child: (Text, ClassView)) -> Key {
    sorting::text_key(child.0).push(0).push(child.1.line as u64).push(child.1.col as u64)
        + sorting::text_key(child.1.name)
}

/// The direct subtypes of a class, in order.
pub open spec fn direct_subtypes(idx: IndexView, module: Text, class: Text) -> Seq<(Text, ClassView)> {
    sorting::sorted(
        listed_classes(idx, listed_subtypes(idx, module, class)),
        |child: (Text, ClassView)| subtype_key(child),
    )
}

/// One level less of a depth that is limited.
pub open spec fn less_deep(depth: Option<usize>) -> Option<usize> {
    match depth {
        Some(n) => Some(
            if n > 0 {
                (n - 1) as usize
            } else {
                0
            },
        ),
        None => None,
    }
}

/// Whether a depth admits more than `n` levels.
pub open spec fn deeper_than(depth: Option<usize>, n: int) -> bool {
    match depth {
        Some(levels) => levels > n,
        None => true,
    }
}

/// The rows of a class and the classes that inherit from it, down to a depth. Members are shown
/// down to a depth of their own. Where something is left out, the row says so.
pub open spec fn sub_row(idx: IndexView, module: Text, class: Text, path: Set<Text>, depth: Option<usize>, member_depth: Option<usize>) -> Result<RowView, QueryErrorView>
    decreases hierarchy::off_path(idx, path), 0nat, 0nat,
    when idx.wf()
{
    let key = model::class_key_of(module, class);
    match class_at(idx, module, class) {
        Err(error) => Err(error),
        Ok((info, found, external)) => {
            let node = class_row(info, found, external);
            if path.contains(key) {
                Ok(RowView { recursive: true, ..node })
            } else {
                proof {
                    index::lemma_lookup(idx, module);
                    hierarchy::lemma_off_path(idx, path, module, class);
                }
                let shows = deeper_than(member_depth, 0);
                let members = if shows {
                    member_rows(idx, info, found, external)
                } else {
                    Ok(Seq::empty())
                };
                let below = direct_subtypes(idx, module, class);
                let inner = sub_rows(
                    idx,
                    below,
                    path.insert(key),
                    less_deep(depth),
                    less_deep(member_depth),
                );
                match members {
                    Err(fault) => Err(QueryErrorView::Unfollowed(fault)),
                    Ok(members) => if deeper_than(depth, 1) {
                        match inner {
                            Err(error) => Err(error),
                            Ok(rows) => Ok(
                                RowView {
                                    truncated: !shows,
                                    children: members + ordered_rows(rows),
                                    ..node
                                },
                            ),
                        }
                    } else {
                        Ok(
                            RowView {
                                truncated: !shows || below.len() > 0,
                                children: ordered_rows(members),
                                ..node
                            },
                        )
                    },
                }
            }
        },
    }
}

/// The rows of subtypes.
pub open spec fn sub_rows(idx: IndexView, below: Seq<(Text, ClassView)>, path: Set<Text>, depth: Option<usize>, member_depth: Option<usize>) -> Result<Seq<RowView>, QueryErrorView>
    decreases hierarchy::off_path(idx, path), 1nat, below.len(),
    when idx.wf()
{
    if below.len() == 0 {
        Ok(Seq::empty())
    } else {
        let before = sub_rows(idx, below.drop_last(), path, depth, member_depth);
        let (module, class) = below.last();
        match before {
            Err(error) => Err(error),
            Ok(rows) => with_row(
                rows,
                sub_row(idx, module, class.name, path, depth, member_depth),
            ),
        }
    }
}

/// Whether the classes of a tree of rows stand on so many levels at most.
pub open spec fn fits(node: RowView, levels: nat) -> bool
    decreases levels,
{
    node.kind == "class"@ ==> levels > 0 && forall|i: int|
        0 <= i < node.children.len() ==> fits(#[trigger] node.children[i], (levels - 1) as nat)
}

/// Whether the classes of a tree of rows show members on so many levels at most.
pub open spec fn shows_members_within(node: RowView, levels: nat) -> bool
    decreases node,
{
    node.kind == "class"@ ==> forall|i: int|
        0 <= i < node.children.len() ==> (#[trigger] node.children[i].kind != "class"@ ==> levels > 0)
            && shows_members_within(
            node.children[i],
            if levels > 0 {
                (levels - 1) as nat
            } else {
                0
            },
        )
}

proof fn lemma_members_are_no_classes(idx: IndexView, info: ModuleView, class: ClassView, external: bool)
    ensures
        member_rows(idx, info, class, external) matches Ok(rows) ==> forall|i: int|
            0 <= i < rows.len() ==> #[trigger] rows[i].kind != "class"@,
{
    reveal_strlit("class");
    reveal_strlit("method");
    assert("class"@.len() != "method"@.len());
    lemma_fields_are_no_classes(idx, info, class.fields);
}

proof fn lemma_fields_are_no_classes(idx: IndexView, info: ModuleView, fields: Seq<FieldView>)
    ensures
        field_rows(idx, info, fields) matches Ok(rows) ==> forall|i: int|
            0 <= i < rows.len() ==> #[trigger] rows[i].kind != "class"@,
    decreases fields.len(),
{
    reveal_strlit("class");
    reveal_strlit("field");
    reveal_strlit("field_object");
    assert("class"@[0] != "field"@[0]);
    assert("class"@.len() != "field_object"@.len());
    if fields.len() > 0 {
        lemma_fields_are_no_classes(idx, info, fields.drop_last());
    }
}

proof fn lemma_ordered_rows_from(nodes: Seq<RowView>, i: int) -> (k: int)
    requires
        0 <= i < ordered_rows(nodes).len(),
    ensures
        0 <= k < nodes.len(),
        nodes[k] == ordered_rows(nodes)[i],
{
    let node = ordered_rows(nodes)[i];
    sorting::lemma_sorted_contains(nodes, |node: RowView| row_key(node), node);
    assert(ordered_rows(nodes).contains(node));
    choose|k: int| 0 <= k < nodes.len() && nodes[k] == node
}

/// The levels that a depth admits: one at least.
pub open spec fn class_levels(depth: usize) -> nat {
    if depth > 1 {
        depth as nat
    } else {
        1
    }
}

/// A tree of subtypes keeps to the depth that it was asked for, and its members to theirs.
pub proof fn law_subtype_rows_keep_to_their_depths(idx: IndexView, module: Text, class: Text, path: Set<Text>, depth: Option<usize>, member_depth: Option<usize>)
    requires
        idx.wf(),
    ensures
        sub_row(idx, module, class, path, depth, member_depth) matches Ok(node) ==> {
            &&& depth matches Some(n) ==> fits(node, class_levels(n))
            &&& member_depth matches Some(m) ==> shows_members_within(node, m as nat)
        },
    decreases hierarchy::off_path(idx, path), 0nat, 0nat,
{
    let key = model::class_key_of(module, class);
    index::lemma_lookup(idx, module);
    if let Ok((info, found, external)) = class_at(idx, module, class) {
        if !path.contains(key) {
            hierarchy::lemma_off_path(idx, path, module, class);
            let below = direct_subtypes(idx, module, class);
            let inner = less_deep(depth);
            let inner_members = less_deep(member_depth);
            lemma_subtype_rows_keep_to_their_depths(
                idx,
                below,
                path.insert(key),
                inner,
                inner_members,
            );
            lemma_members_are_no_classes(idx, info, found, external);
            if let Ok(node) = sub_row(idx, module, class, path, depth, member_depth) {
                let members = if deeper_than(member_depth, 0) {
                    member_rows(idx, info, found, external)->Ok_0
                } else {
                    Seq::empty()
                };
                let rows = sub_rows(idx, below, path.insert(key), inner, inner_members)->Ok_0;
                assert forall|i: int| 0 <= i < node.children.len() implies {
                    ||| #[trigger] node.children[i].kind != "class"@ && deeper_than(member_depth, 0)
                    ||| deeper_than(depth, 1) && rows.contains(node.children[i])
                } by {
                    if !deeper_than(depth, 1) {
                        let k = lemma_ordered_rows_from(members, i);
                        assert(members[k].kind != "class"@);
                    } else if i < members.len() {
                        assert(members[i].kind != "class"@);
                    } else {
                        let k = lemma_ordered_rows_from(rows, i - members.len());
                        assert(rows[k] == node.children[i]);
                    }
                }
                if let Some(n) = depth {
                    assert forall|i: int| 0 <= i < node.children.len() implies fits(
                        #[trigger] node.children[i],
                        (class_levels(n) - 1) as nat,
                    ) by {
                        if node.children[i].kind == "class"@ {
                            let k = choose|k: int| 0 <= k < rows.len() && rows[k] == node.children[i];
                            assert(fits(rows[k], class_levels(inner->0)));
                        }
                    }
                }
                if let Some(m) = member_depth {
                    assert forall|i: int| 0 <= i < node.children.len() implies shows_members_within(
                        #[trigger] node.children[i],
                        inner_members->0 as nat,
                    ) by {
                        if node.children[i].kind == "class"@ {
                            let k = choose|k: int| 0 <= k < rows.len() && rows[k] == node.children[i];
                            assert(shows_members_within(rows[k], inner_members->0 as nat));
                        }
                    }
                    assert forall|i: int|
                        0 <= i < node.children.len() && #[trigger] node.children[i].kind != "class"@ implies m
                        > 0 by {
                        if m == 0 {
                            let k = choose|k: int| 0 <= k < rows.len() && rows[k] == node.children[i];
                            assert(rows[k].kind == "class"@);
                        }
                    }
                }
            }
        }
    }
}

proof fn lemma_subtype_rows_keep_to_their_depths(idx: IndexView, below: Seq<(Text, ClassView)>, path: Set<Text>, depth: Option<usize>, member_depth: Option<usize>)
    requires
        idx.wf(),
    ensures
        sub_rows(idx, below, path, depth, member_depth) matches Ok(rows) ==> forall|i: int|
            0 <= i < rows.len() ==> {
                &&& depth matches Some(n) ==> fits(rows[i], class_levels(n))
                &&& member_depth matches Some(m) ==> shows_members_within(rows[i], m as nat)
                &&& (#[trigger] rows[i]).kind == "class"@
            },
    decreases hierarchy::off_path(idx, path), 1nat, below.len(),
{
    if below.len() > 0 {
        let (module, class) = below.last();
        lemma_subtype_rows_keep_to_their_depths(idx, below.drop_last(), path, depth, member_depth);
        law_subtype_rows_keep_to_their_depths(idx, module, class.name, path, depth, member_depth);
    }
}

/// A row without anything below it.
pub(crate) fn make_row(kind: &str, name: &str, path: &str, line: usize, col: usize, target_path: &str, target_line: usize, target_col: usize, external: bool) -> (node: RenderNode)
    ensures
        node.deep_view() == row(
            kind@,
            name@,
            (Place { path: path@, line, col }),
            (Place { path: target_path@, line: target_line, col: target_col }),
            external,
        ),
{
    let node = RenderNode {
        kind: kind.to_owned(),
        name: name.to_owned(),
        path: path.to_owned(),
        line,
        col,
        target_path: target_path.to_owned(),
        target_line,
        target_col,
        external,
        recursive: false,
        detail: String::new(),
        required: false,
        type_ref: None,
        type_label: None,
        truncated: false,
        children: Vec::new(),
    };
    assert(node.deep_view().detail =~= Seq::empty());
    assert(node.deep_view().children =~= Seq::empty());
    node
}

/// A row, with these rows below it.
pub(crate) fn set_children(node: &mut RenderNode, children: Vec<RenderNode>)
    ensures
        final(node).deep_view() == (RowView {
            children: children.deep_view(),
            ..old(node).deep_view()
        }),
{
    let ghost below = children.deep_view();
    node.children = children;
    assert(node.deep_view().children =~= below);
}

/// What orders rows.
fn key_of_row(node: &RenderNode) -> (key: Vec<u64>)
    ensures
        key@ == row_key(node.deep_view()),
{
    let mut key = order_key_of(node.path.as_str());
    key.push(0);
    key.push(node.line as u64);
    key.push(node.col as u64);
    let mut rest = key_of_text(node.name.as_str());
    key.append(&mut rest);
    key
}

/// Rows in order.
pub(crate) fn render_sort_nodes(nodes: Vec<RenderNode>) -> (ordered: Vec<RenderNode>)
    ensures
        ordered.deep_view() == ordered_rows(nodes.deep_view()),
{
    let mut keys: Vec<Vec<u64>> = Vec::new();
    let mut i: usize = 0;
    while i < nodes.len()
        invariant
            i <= nodes@.len(),
            keys@.len() == i,
            forall|k: int| 0 <= k < i ==> (#[trigger] keys@[k])@ == row_key(nodes@[k].deep_view()),
        decreases nodes@.len() - i,
    {
        keys.push(key_of_row(&nodes[i]));
        i = i + 1;
    }
    sort_keyed(nodes, keys, Ghost(|node: RowView| row_key(node)))
}

/// The row of a method.
fn render_method_node(info: &ModuleInfo, method: &MethodInfo, external: bool) -> (node: RenderNode)
    ensures
        node.deep_view() == method_row(info.deep_view(), method.deep_view(), external),
{
    let path = info.path.as_str();
    make_row(
        "method",
        method.name.as_str(),
        path,
        method.line,
        method.col,
        path,
        method.line,
        method.col,
        external,
    )
}

/// Whether a class is at hand and has members.
fn opens_class(index: &WorkspaceIndex, module: &str, class_name: &str) -> (answer: Result<bool, Fault>)
    requires
        index.wf(),
    ensures
        errors::follows(answer, class_has_members(index@, module@, class_name@)),
{
    match index.get_module(module) {
        Err(fault) => Err(fault),
        Ok(None) => Ok(false),
        Ok(Some((info, _))) => match info.class_named(class_name) {
            Some(class) => {
                assert(class.deep_view().fields.len() == class.fields@.len());
                assert(class.deep_view().methods.len() == class.methods@.len());
                Ok(class.fields.len() > 0 || class.methods.len() > 0)
            },
            None => Ok(false),
        },
    }
}

/// Whether the type of a field is a class with members.
fn opens_field(index: &WorkspaceIndex, info: &ModuleInfo, field: &FieldInfo) -> (answer: Result<bool, Fault>)
    requires
        index.wf(),
        info.wf(),
    ensures
        errors::follows(answer, has_members(index@, info.deep_view(), field.deep_view())),
{
    match &field.type_ref {
        None => Ok(false),
        Some(type_ref) => match resolve_base(index, info, type_ref.as_str()) {
            Err(fault) => Err(fault),
            Ok(ResolvedBase::Unresolved { .. }) => Ok(false),
            Ok(ResolvedBase::Workspace { module, class_name, .. }) => opens_class(
                index,
                module.as_str(),
                class_name.as_str(),
            ),
            Ok(ResolvedBase::External { module, class_name, .. }) => opens_class(
                index,
                module.as_str(),
                class_name.as_str(),
            ),
        },
    }
}

/// The row of a field.
fn render_field_node(index: &WorkspaceIndex, info: &ModuleInfo, field: &FieldInfo) -> (answer: Result<RenderNode, Fault>)
    requires
        index.wf(),
        info.wf(),
    ensures
        errors::follows(answer, field_row(index@, info.deep_view(), field.deep_view())),
{
    let opens = match opens_field(index, info, field) {
        Err(fault) => {
            return Err(fault);
        },
        Ok(opens) => opens,
    };
    let path = info.path.as_str();
    let kind = if opens { "field_object" } else { "field" };
    let mut node = make_row(
        kind,
        field.name.as_str(),
        path,
        field.line,
        field.col,
        path,
        field.line,
        field.col,
        false,
    );
    let ghost plain = node.deep_view();
    node.detail = field.annotation.clone();
    node.required = field.required;
    node.type_ref = field.type_ref.clone();
    node.type_label = match &field.type_ref {
        Some(type_ref) => Some(tail_after(type_ref.as_str(), '.')),
        None => None,
    };
    assert(node.deep_view().children =~= plain.children);
    Ok(node)
}

/// The rows of the members of a class.
pub(crate) fn render_class_member_children(index: &WorkspaceIndex, info: &ModuleInfo, class: &ClassInfo, external: bool) -> (answer: Result<Vec<RenderNode>, Fault>)
    requires
        index.wf(),
        info.wf(),
    ensures
        errors::follows(
            answer,
            member_rows(index@, info.deep_view(), class.deep_view(), external),
        ),
{
    let ghost idx = index@;
    let ghost module = info.deep_view();
    let ghost fields = class.fields.deep_view();
    let ghost methods = class.methods.deep_view();
    let mut children: Vec<RenderNode> = Vec::new();
    let mut i: usize = 0;
    assert(children.deep_view() =~= Seq::empty());
    while i < class.fields.len()
        invariant
            i <= class.fields@.len(),
            index.wf(),
            info.wf(),
            idx == index@,
            module == info.deep_view(),
            fields == class.fields.deep_view(),
            field_rows(idx, module, fields.take(i as int)) == Ok::<Seq<RowView>, FaultView>(
                children.deep_view(),
            ),
        decreases class.fields@.len() - i,
    {
        let ghost before = children.deep_view();
        assert(fields.take(i as int + 1).drop_last() =~= fields.take(i as int));
        assert(fields.take(i as int + 1).last() == class.fields@[i as int].deep_view());
        match render_field_node(index, info, &class.fields[i]) {
            Err(fault) => {
                proof {
                    lemma_field_fault(idx, module, fields, i as int + 1);
                }
                return Err(fault);
            },
            Ok(node) => {
                let ghost viewed = node.deep_view();
                children.push(node);
                assert(children.deep_view() =~= before.push(viewed));
            },
        }
        i = i + 1;
    }
    assert(fields.take(i as int) =~= fields);
    let ghost field_part = children.deep_view();
    let ghost goal = methods.map_values(|method: MethodView| method_row(module, method, external));
    let mut k: usize = 0;
    assert(children.deep_view() =~= field_part + goal.take(0));
    while k < class.methods.len()
        invariant
            k <= class.methods@.len(),
            module == info.deep_view(),
            methods == class.methods.deep_view(),
            goal == methods.map_values(|method: MethodView| method_row(module, method, external)),
            children.deep_view() == field_part + goal.take(k as int),
        decreases class.methods@.len() - k,
    {
        let ghost before = children.deep_view();
        assert(methods[k as int] == class.methods@[k as int].deep_view());
        let node = render_method_node(info, &class.methods[k], external);
        let ghost viewed = node.deep_view();
        children.push(node);
        assert(children.deep_view() =~= before.push(viewed));
        assert(field_part + goal.take(k as int + 1) =~= (field_part + goal.take(k as int)).push(
            goal[k as int],
        ));
        k = k + 1;
    }
    assert(goal.take(k as int) =~= goal);
    Ok(children)
}

/// A fault at one field is the fault of all.
proof fn lemma_field_fault(idx: IndexView, info: ModuleView, fields: Seq<FieldView>, n: int)
    requires
        0 <= n <= fields.len(),
        field_rows(idx, info, fields.take(n)) is Err,
    ensures
        field_rows(idx, info, fields) == field_rows(idx, info, fields.take(n)),
    decreases fields.len() - n,
{
    if n == fields.len() {
        assert(fields.take(n) =~= fields);
    } else {
        assert(fields.take(n + 1).drop_last() =~= fields.take(n));
        lemma_field_fault(idx, info, fields, n + 1);
    }
}

/// The class of a module and a name, with its module and whether it lies outside the workspace.
pub(crate) fn find_class<'a>(index: &'a WorkspaceIndex, module: &str, class: &str) -> (answer: Result<(&'a ModuleInfo, &'a ClassInfo, bool), QueryError>)
    requires
        index.wf(),
    ensures
        match answer {
            Ok((info, found, external)) => info.wf() && class_at(index@, module@, class@) == Ok::<
                (ModuleView, ClassView, bool),
                QueryErrorView,
            >((info.deep_view(), found.deep_view(), external)),
            Err(error) => class_at(index@, module@, class@) == Err::<
                (ModuleView, ClassView, bool),
                QueryErrorView,
            >(error.deep_view()),
        },
{
    match index.get_module(module) {
        Err(fault) => Err(QueryError::Unfollowed(fault)),
        Ok(None) => Err(QueryError::ModuleMissing { module: module.to_owned() }),
        Ok(Some((info, external))) => match info.class_named(class) {
            Some(found) => Ok((info, found, external)),
            None => Err(
                QueryError::ClassMissing {
                    module: module.to_owned(),
                    class_name: class.to_owned(),
                },
            ),
        },
    }
}

/// The row of a class, without anything below it.
fn make_class_row(info: &ModuleInfo, class: &ClassInfo, external: bool) -> (node: RenderNode)
    ensures
        node.deep_view() == class_row(info.deep_view(), class.deep_view(), external),
{
    let path = info.path.as_str();
    make_row(
        "class",
        class.name.as_str(),
        path,
        class.line,
        class.col,
        path,
        class.line,
        class.col,
        external,
    )
}

/// A row that stands for one further up.
pub(crate) fn mark_recursive(node: &mut RenderNode)
    ensures
        final(node).deep_view() == (RowView { recursive: true, ..old(node).deep_view() }),
{
    let ghost below = node.deep_view().children;
    node.recursive = true;
    assert(node.deep_view().children =~= below);
}

/// The rows of a class and the classes that it inherits from.
pub(crate) fn build_super_render_node(index: &WorkspaceIndex, module: &str, class: &str, visited: &mut FxHashSet<String>) -> (answer: Result<RenderNode, QueryError>)
    requires
        index.wf(),
    ensures
        errors::answers(
            answer,
            super_row(index@, module@, class@, names::names_of(*old(visited))),
        ),
        !hierarchy::gave_up(answer) ==> names::names_of(*final(visited)) == names::names_of(
            *old(visited),
        ),
    decreases hierarchy::off_path(index@, names::names_of(*old(visited))), 0nat, 0nat,
{
    let ghost idx = index@;
    let ghost path = names::names_of(*visited);
    proof {
        index.lemma_view_wf();
        index::lemma_lookup(idx, module@);
    }
    let (info, found, external) = match find_class(index, module, class) {
        Err(error) => {
            return Err(error);
        },
        Ok(found) => found,
    };
    let mut node = make_class_row(info, found, external);
    let key = class_key(module, class);
    if !names_insert(visited, key.clone()) {
        assert(path.insert(key@) =~= path);
        mark_recursive(&mut node);
        return Ok(node);
    }
    proof {
        hierarchy::lemma_off_path(idx, path, module@, class@);
    }
    let ghost inner = path.insert(key@);
    assert(inner.remove(key@) =~= path);
    let mut children = match render_class_member_children(index, info, found, external) {
        Err(fault) => {
            return Err(QueryError::Unfollowed(fault));
        },
        Ok(children) => children,
    };
    let ghost members = children.deep_view();
    let mut above = match build_super_rows(index, info, &found.bases, visited) {
        Err(error) => {
            return Err(error);
        },
        Ok(above) => above,
    };
    if above.len() == 0 && !same(found.name.as_str(), "object") {
        assert(above.deep_view() =~= Seq::empty());
        match build_super_render_node(index, "builtins", "object", visited) {
            Ok(object) => {
                let ghost viewed = object.deep_view();
                above.push(object);
                assert(above.deep_view() =~= seq![viewed]);
            },
            Err(error) => {
                if unfollowed(&error) {
                    return Err(error);
                }
                assert(members + ordered_rows(Seq::empty()) =~= members);
            },
        }
    }
    let mut rows = render_sort_nodes(above);
    let ghost below = rows.deep_view();
    children.append(&mut rows);
    assert(children.deep_view() =~= members + below);
    set_children(&mut node, children);
    names_remove(visited, key.as_str());
    Ok(node)
}

/// The rows of the bases of a class that are at hand.
fn build_super_rows(index: &WorkspaceIndex, info: &ModuleInfo, bases: &Vec<String>, visited: &mut FxHashSet<String>) -> (answer: Result<Vec<RenderNode>, QueryError>)
    requires
        index.wf(),
        info.wf(),
    ensures
        errors::answers(
            answer,
            super_rows(
                index@,
                info.deep_view(),
                bases.deep_view(),
                names::names_of(*old(visited)),
            ),
        ),
        answer is Err ==> hierarchy::gave_up(answer),
        answer is Ok ==> names::names_of(*final(visited)) == names::names_of(*old(visited)),
    decreases
        hierarchy::off_path(index@, names::names_of(*old(visited))),
        1nat,
        bases.deep_view().len(),
{
    let ghost idx = index@;
    let ghost module = info.deep_view();
    let ghost all = bases.deep_view();
    let ghost path = names::names_of(*visited);
    proof {
        index.lemma_view_wf();
    }
    let mut rows: Vec<RenderNode> = Vec::new();
    let mut i: usize = 0;
    assert(rows.deep_view() =~= Seq::empty());
    while i < bases.len()
        invariant
            i <= bases@.len(),
            index.wf(),
            info.wf(),
            idx == index@,
            idx.wf(),
            module == info.deep_view(),
            all == bases.deep_view(),
            path == names::names_of(*old(visited)),
            names::names_of(*visited) == path,
            super_rows(idx, module, all.take(i as int), path) == Ok::<
                Seq<RowView>,
                QueryErrorView,
            >(rows.deep_view()),
        decreases bases@.len() - i,
    {
        let ghost before = rows.deep_view();
        assert(all.take(i as int + 1).drop_last() =~= all.take(i as int));
        assert(all.take(i as int + 1).last() == bases@[i as int]@);
        let raw = bases[i].as_str();
        if !has_char(raw, '=') {
            let target = match resolve_base(index, info, raw) {
                Err(fault) => {
                    proof {
                        lemma_super_error(idx, module, all, i as int + 1, path);
                    }
                    return Err(QueryError::Unfollowed(fault));
                },
                Ok(ResolvedBase::Workspace { module: base_module, class_name, .. }) => Some(
                    (base_module, class_name),
                ),
                Ok(ResolvedBase::External { module: base_module, class_name, .. }) => Some(
                    (base_module, class_name),
                ),
                Ok(ResolvedBase::Unresolved { .. }) => None,
            };
            if let Some((base_module, class_name)) = target {
                match build_super_render_node(
                    index,
                    base_module.as_str(),
                    class_name.as_str(),
                    visited,
                ) {
                    Ok(node) => {
                        let ghost viewed = node.deep_view();
                        rows.push(node);
                        assert(rows.deep_view() =~= before.push(viewed));
                    },
                    Err(error) => {
                        if unfollowed(&error) {
                            proof {
                                lemma_super_error(idx, module, all, i as int + 1, path);
                            }
                            return Err(error);
                        }
                    },
                }
            }
        }
        i = i + 1;
    }
    assert(all.take(i as int) =~= all);
    Ok(rows)
}

/// An error at one base is the error of all.
proof fn lemma_super_error(idx: IndexView, info: ModuleView, bases: Seq<Text>, n: int, path: Set<Text>)
    requires
        idx.wf(),
        0 <= n <= bases.len(),
        super_rows(idx, info, bases.take(n), path) is Err,
    ensures
        super_rows(idx, info, bases, path) == super_rows(idx, info, bases.take(n), path),
    decreases bases.len() - n,
{
    if n == bases.len() {
        assert(bases.take(n) =~= bases);
    } else {
        assert(bases.take(n + 1).drop_last() =~= bases.take(n));
        lemma_super_error(idx, info, bases, n + 1, path);
    }
}

/// The classes listed as subtypes that are there, with their modules.
fn collect_listed<'a>(index: &'a WorkspaceIndex, pairs: &Vec<(String, String)>) -> (found: Vec<(String, &'a ClassInfo)>)
    requires
        index.wf(),
    ensures
        found.deep_view() == listed_classes(index@, pairs.deep_view()),
{
    let ghost idx = index@;
    let ghost all = pairs.deep_view();
    let mut found: Vec<(String, &ClassInfo)> = Vec::new();
    let mut i: usize = 0;
    assert(found.deep_view() =~= Seq::empty());
    while i < pairs.len()
        invariant
            i <= pairs@.len(),
            index.wf(),
            idx == index@,
            all == pairs.deep_view(),
            found.deep_view() == listed_classes(idx, all.take(i as int)),
        decreases pairs@.len() - i,
    {
        let ghost before = found.deep_view();
        assert(all.take(i as int + 1).drop_last() =~= all.take(i as int));
        assert(all.take(i as int + 1).last() == pairs@[i as int].deep_view());
        if let Some(info) = index.modules_by_name.get(pairs[i].0.as_str()) {
            assert(idx.workspace.contains_key(pairs@[i as int].0@));
            if let Some(class) = info.class_named(pairs[i].1.as_str()) {
                found.push((pairs[i].0.clone(), class));
                assert(found.deep_view() =~= before.push(
                    (pairs@[i as int].0@, class.deep_view()),
                ));
            }
        } else {
            assert(!idx.workspace.contains_key(pairs@[i as int].0@));
        }
        i = i + 1;
    }
    assert(all.take(i as int) =~= all);
    found
}

/// The subtypes listed for a class that are there.
pub(crate) fn find_listed_subtypes<'a>(index: &'a WorkspaceIndex, module: &str, class: &str) -> (found: Vec<(String, &'a ClassInfo)>)
    requires
        index.wf(),
    ensures
        found.deep_view() == listed_classes(index@, listed_subtypes(index@, module@, class@)),
{
    let key = class_key(module, class);
    match index.direct_subtypes.get(key.as_str()) {
        Some(pairs) => {
            assert(index@.subtypes.contains_key(key@));
            collect_listed(index, pairs)
        },
        None => {
            assert(!index@.subtypes.contains_key(key@));
            let found: Vec<(String, &ClassInfo)> = Vec::new();
            assert(found.deep_view() =~= Seq::empty());
            found
        },
    }
}

/// What orders subtypes.
fn key_of_subtype(child: &(String, &ClassInfo)) -> (key: Vec<u64>)
    ensures
        key@ == subtype_key(child.deep_view()),
{
    let mut key = key_of_text(child.0.as_str());
    key.push(0);
    key.push(child.1.line as u64);
    key.push(child.1.col as u64);
    let mut rest = key_of_text(child.1.name.as_str());
    key.append(&mut rest);
    key
}

/// The direct subtypes of a class, in order.
fn find_direct_subtypes<'a>(index: &'a WorkspaceIndex, module: &str, class: &str) -> (ordered: Vec<(String, &'a ClassInfo)>)
    requires
        index.wf(),
    ensures
        ordered.deep_view() == direct_subtypes(index@, module@, class@),
{
    let found = find_listed_subtypes(index, module, class);
    let mut keys: Vec<Vec<u64>> = Vec::new();
    let mut i: usize = 0;
    while i < found.len()
        invariant
            i <= found@.len(),
            keys@.len() == i,
            forall|k: int|
                0 <= k < i ==> (#[trigger] keys@[k])@ == subtype_key(found@[k].deep_view()),
        decreases found@.len() - i,
    {
        keys.push(key_of_subtype(&found[i]));
        i = i + 1;
    }
    sort_keyed(found, keys, Ghost(|child: (Text, ClassView)| subtype_key(child)))
}

/// One level less of a depth that is limited.
fn one_less(depth: Option<usize>) -> (less: Option<usize>)
    ensures
        less == less_deep(depth),
{
    match depth {
        Some(n) => Some(n.saturating_sub(1)),
        None => None,
    }
}

/// Whether a depth admits more than `n` levels.
fn admits(depth: Option<usize>, n: usize) -> (r: bool)
    ensures
        r == deeper_than(depth, n as int),
{
    match depth {
        Some(levels) => levels > n,
        None => true,
    }
}

/// The rows of a class and the classes that inherit from it, down to a depth.
pub(crate) fn build_sub_render_node_limited(
    index: &WorkspaceIndex,
    module: &str,
    class: &str,
    visited: &mut FxHashSet<String>,
    max_depth: Option<usize>,
    member_depth: Option<usize>,
) -> (answer: Result<RenderNode, QueryError>)
    requires
        index.wf(),
    ensures
        errors::answers(
            answer,
            sub_row(
                index@,
                module@,
                class@,
                names::names_of(*old(visited)),
                max_depth,
                member_depth,
            ),
        ),
        !hierarchy::gave_up(answer) ==> names::names_of(*final(visited)) == names::names_of(
            *old(visited),
        ),
    decreases hierarchy::off_path(index@, names::names_of(*old(visited))), 0nat, 0nat,
{
    let ghost idx = index@;
    let ghost path = names::names_of(*visited);
    proof {
        index.lemma_view_wf();
        index::lemma_lookup(idx, module@);
    }
    let (info, found, external) = match find_class(index, module, class) {
        Err(error) => {
            return Err(error);
        },
        Ok(found) => found,
    };
    let mut node = make_class_row(info, found, external);
    let ghost plain = node.deep_view();
    let key = class_key(module, class);
    if !names_insert(visited, key.clone()) {
        assert(path.insert(key@) =~= path);
        mark_recursive(&mut node);
        return Ok(node);
    }
    proof {
        hierarchy::lemma_off_path(idx, path, module@, class@);
    }
    let ghost inner = path.insert(key@);
    assert(inner.remove(key@) =~= path);
    let shows = admits(member_depth, 0);
    let mut children: Vec<RenderNode> = Vec::new();
    assert(children.deep_view() =~= Seq::empty());
    if shows {
        match render_class_member_children(index, info, found, external) {
            Err(fault) => {
                return Err(QueryError::Unfollowed(fault));
            },
            Ok(members) => {
                children = members;
            },
        }
    }
    let ghost members = children.deep_view();
    let below = find_direct_subtypes(index, module, class);
    assert(below.deep_view().len() == below@.len());
    if admits(max_depth, 1) {
        let inner_rows = match build_sub_rows(
            index,
            &below,
            visited,
            one_less(max_depth),
            one_less(member_depth),
        ) {
            Err(error) => {
                return Err(error);
            },
            Ok(rows) => rows,
        };
        let mut rows = render_sort_nodes(inner_rows);
        let ghost tail = rows.deep_view();
        children.append(&mut rows);
        assert(children.deep_view() =~= members + tail);
        node.truncated = !shows;
    } else {
        children = render_sort_nodes(children);
        node.truncated = !shows || below.len() > 0;
    }
    let ghost flagged = node.deep_view();
    assert(flagged.children =~= plain.children);
    set_children(&mut node, children);
    names_remove(visited, key.as_str());
    Ok(node)
}

/// The rows of subtypes.
fn build_sub_rows(
    index: &WorkspaceIndex,
    below: &Vec<(String, &ClassInfo)>,
    visited: &mut FxHashSet<String>,
    max_depth: Option<usize>,
    member_depth: Option<usize>,
) -> (answer: Result<Vec<RenderNode>, QueryError>)
    requires
        index.wf(),
    ensures
        errors::answers(
            answer,
            sub_rows(
                index@,
                below.deep_view(),
                names::names_of(*old(visited)),
                max_depth,
                member_depth,
            ),
        ),
        answer is Err ==> hierarchy::gave_up(answer),
        answer is Ok ==> names::names_of(*final(visited)) == names::names_of(*old(visited)),
    decreases
        hierarchy::off_path(index@, names::names_of(*old(visited))),
        1nat,
        below.deep_view().len(),
{
    let ghost idx = index@;
    let ghost all = below.deep_view();
    let ghost path = names::names_of(*visited);
    proof {
        index.lemma_view_wf();
    }
    let mut rows: Vec<RenderNode> = Vec::new();
    let mut i: usize = 0;
    assert(rows.deep_view() =~= Seq::empty());
    while i < below.len()
        invariant
            i <= below@.len(),
            index.wf(),
            idx == index@,
            idx.wf(),
            all == below.deep_view(),
            path == names::names_of(*old(visited)),
            names::names_of(*visited) == path,
            sub_rows(idx, all.take(i as int), path, max_depth, member_depth) == Ok::<
                Seq<RowView>,
                QueryErrorView,
            >(rows.deep_view()),
        decreases below@.len() - i,
    {
        let ghost before = rows.deep_view();
        assert(all.take(i as int + 1).drop_last() =~= all.take(i as int));
        assert(all.take(i as int + 1).last() == below@[i as int].deep_view());
        match build_sub_render_node_limited(
            index,
            below[i].0.as_str(),
            below[i].1.name.as_str(),
            visited,
            max_depth,
            member_depth,
        ) {
            Ok(node) => {
                let ghost viewed = node.deep_view();
                rows.push(node);
                assert(rows.deep_view() =~= before.push(viewed));
            },
            Err(error) => {
                if unfollowed(&error) {
                    proof {
                        lemma_sub_error(idx, all, i as int + 1, path, max_depth, member_depth);
                    }
                    return Err(error);
                }
            },
        }
        i = i + 1;
    }
    assert(all.take(i as int) =~= all);
    Ok(rows)
}

/// An error at one subtype is the error of all.
proof fn lemma_sub_error(idx: IndexView, below: Seq<(Text, ClassView)>, n: int, path: Set<Text>, depth: Option<usize>, member_depth: Option<usize>)
    requires
        idx.wf(),
        0 <= n <= below.len(),
        sub_rows(idx, below.take(n), path, depth, member_depth) is Err,
    ensures
        sub_rows(idx, below, path, depth, member_depth) == sub_rows(
            idx,
            below.take(n),
            path,
            depth,
            member_depth,
        ),
    decreases below.len() - n,
{
    if n == below.len() {
        assert(below.take(n) =~= below);
    } else {
        assert(below.take(n + 1).drop_last() =~= below.take(n));
        lemma_sub_error(idx, below, n + 1, path, depth, member_depth);
    }
}

} // verus!
