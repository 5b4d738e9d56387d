//! The questions that can be asked of an index. Each takes the file as it was named and, where it
//! is known, its canonical path.
use vstd::prelude::*;

use crate::callables;
use crate::callables::resolve_callable;
use crate::callables::CallableView;
use crate::calltree;
use crate::calltree::build_call_render_node;
use crate::calltree::list_edges;
use crate::errors;
use crate::errors::FaultView;
use crate::errors::QueryError;
use crate::errors::QueryErrorView;
use crate::hierarchy;
use crate::hierarchy::build_class_node;
use crate::hierarchy::HierarchyNode;
use crate::hierarchy::NodeView;
use crate::index::IndexView;
use crate::index::WorkspaceIndex;
use crate::model;
use crate::model::callable_key;
use crate::model::hierarchy_item_from_class;
use crate::model::BaseView;
use crate::model::CallHierarchyEdge;
use crate::model::CallView;
use crate::model::ClassInfo;
use crate::model::ClassMembersResult;
use crate::model::ClassView;
use crate::model::EdgeView;
use crate::model::FunctionInfo;
use crate::model::FunctionView;
use crate::model::HierarchyItem;
use crate::model::HierarchyItemView;
use crate::model::MembersView;
use crate::model::ModuleInfo;
use crate::model::ModuleView;
use crate::model::ReferenceView;
use crate::model::ResolvedBase;
use crate::model::ResolvedCallableReference;
use crate::model::SourceRange;
use crate::names::names_new;
use crate::paths;
use crate::paths::order_key_of;
use crate::render;
use crate::render::build_sub_render_node_limited;
use crate::render::build_super_render_node;
use crate::render::find_listed_subtypes;
use crate::render::Place;
use crate::render::RenderNode;
use crate::render::RowView;
use crate::resolve;
use crate::resolve::resolve_base;
use crate::sorting;
use crate::sorting::sort_keyed;
use crate::sorting::Key;
use crate::targets;
use crate::targets::locate_class_target;
use crate::targets::locate_function_target;
use crate::targets::open_file;
use crate::targets::open_module;
use crate::targets::OpenedView;
use crate::text::Text;

verus! {

/// A class and the classes that it inherits from.
#[derive(Debug)]
pub struct QueryResult {
    pub file: String,
    pub class_name: String,
    pub hierarchy: HierarchyNode,
}

/// What a class and the classes that it inherits from are.
pub struct QueryResultView {
    pub file: Text,
    pub class_name: Text,
    pub hierarchy: NodeView,
}

impl DeepView for QueryResult {
    type V = QueryResultView;

    open spec fn deep_view(&self) -> QueryResultView {
        QueryResultView {
            file: self.file@,
            class_name: self.class_name@,
            hierarchy: self.hierarchy.deep_view(),
        }
    }
}

/// A tree of rows.
#[derive(Debug)]
pub struct RenderTreeResult {
    pub tree: RenderNode,
}

impl DeepView for RenderTreeResult {
    type V = RowView;

    open spec fn deep_view(&self) -> RowView {
        self.tree.deep_view()
    }
}

/// The class that a hierarchy is asked for: the one named, or the first one of the module.
pub open spec fn hierarchy_class(module: OpenedView, class_name: Text) -> Result<Text, QueryErrorView> {
    if class_name.len() == 0 && module.info.classes.len() == 0 {
        Err(QueryErrorView::NoClasses)
    } else {
        let wanted = if class_name.len() == 0 {
            module.info.classes[0].name
        } else {
            class_name
        };
        if module.info.has_class(wanted) {
            Ok(wanted)
        } else {
            Err(QueryErrorView::ClassNotFound { class_name: wanted, module: module.info.module_name })
        }
    }
}

/// The answer to `query_type_hierarchy`.
pub open spec fn type_hierarchy(idx: IndexView, file: Text, canonical: Option<Text>, class_name: Text) -> Result<QueryResultView, QueryErrorView> {
    match targets::module_in(idx, file, canonical) {
        Err(error) => Err(error),
        Ok(module) => match hierarchy_class(module, class_name) {
            Err(error) => Err(error),
            Ok(wanted) => match hierarchy::class_node(
                idx,
                module.name,
                wanted,
                wanted,
                Set::empty(),
                Set::empty(),
            ).0 {
                Err(error) => Err(error),
                Ok(node) => Ok(QueryResultView { file, class_name: wanted, hierarchy: node }),
            },
        },
    }
}

/// The classes that a class inherits from, as a tree.
pub fn query_type_hierarchy(index: &WorkspaceIndex, file: &str, canonical: &Option<String>, class_name: &str) -> (answer: Result<QueryResult, QueryError>)
    requires
        index.wf(),
    ensures
        errors::answers(
            answer,
            type_hierarchy(index@, file@, canonical.deep_view(), class_name@),
        ),
{
    let module = match open_file(index, file, canonical) {
        Err(error) => {
            return Err(error);
        },
        Ok(module) => module,
    };
    assert(module.deep_view().info.classes.len() == module.info.classes@.len());
    let wanted = if class_name.is_empty() {
        if module.info.classes.len() == 0 {
            return Err(QueryError::NoClasses);
        }
        module.info.classes[0].name.clone()
    } else {
        class_name.to_owned()
    };
    if !module.info.has_class(wanted.as_str()) {
        return Err(
            QueryError::ClassNotFound {
                class_name: wanted,
                module: module.info.module_name.clone(),
            },
        );
    }
    let mut visited = names_new();
    assert(Set::<Text>::empty().union(Set::<Text>::empty()) =~= Set::<Text>::empty());
    match build_class_node(
        index,
        module.name.as_str(),
        wanted.as_str(),
        wanted.as_str(),
        &mut visited,
        Ghost(Set::empty()),
        Ghost(Set::empty()),
    ) {
        Err(error) => Err(error),
        Ok(hierarchy) => Ok(QueryResult { file: file.to_owned(), class_name: wanted, hierarchy }),
    }
}

/// What orders the items of a list of subtypes: path, line and column.
pub open spec fn item_key(item: HierarchyItemView) -> Key {
    paths::order_key(item.path).push(0).push(item.line as u64).push(item.col as u64)
}

/// The items that stand for classes of the workspace.
pub open spec fn subtype_items(idx: IndexView, found: Seq<(Text, ClassView)>) -> Seq<HierarchyItemView> {
    found.map_values(
        |child: (Text, ClassView)|
            model::item_of_class(idx.workspace[child.0], child.1, false, Seq::empty()),
    )
}

/// The answer to `query_subtypes`.
pub open spec fn subtypes(idx: IndexView, file: Text, canonical: Option<Text>, class_name: Text) -> Result<Seq<HierarchyItemView>, QueryErrorView> {
    match targets::module_in(idx, file, canonical) {
        Err(error) => Err(error),
        Ok(module) => match targets::class_target(module, class_name) {
            Err(error) => Err(error),
            Ok(class) => {
                let found = render::listed_classes(
                    idx,
                    render::listed_subtypes(idx, module.name, class.name),
                );
                Ok(
                    sorting::sorted(
                        subtype_items(idx, found),
                        |item: HierarchyItemView| item_key(item),
                    ),
                )
            },
        },
    }
}

/// The items, in order.
fn sort_items(items: Vec<HierarchyItem>) -> (ordered: Vec<HierarchyItem>)
    ensures
        ordered.deep_view() == sorting::sorted(
            items.deep_view(),
            |item: HierarchyItemView| item_key(item),
        ),
{
    let mut keys: Vec<Vec<u64>> = Vec::new();
    let mut i: usize = 0;
    while i < items.len()
        invariant
            i <= items@.len(),
            keys@.len() == i,
            forall|k: int| 0 <= k < i ==> (#[trigger] keys@[k])@ == item_key(items@[k].deep_view()),
        decreases items@.len() - i,
    {
        let mut key = order_key_of(items[i].path.as_str());
        key.push(0);
        key.push(items[i].line as u64);
        key.push(items[i].col as u64);
        keys.push(key);
        i = i + 1;
    }
    sort_keyed(items, keys, Ghost(|item: HierarchyItemView| item_key(item)))
}

proof fn lemma_listed_in_workspace(idx: IndexView, pairs: Seq<(Text, Text)>, i: int)
    requires
        0 <= i < render::listed_classes(idx, pairs).len(),
    ensures
        idx.workspace.contains_key(render::listed_classes(idx, pairs)[i].0),
    decreases pairs.len(),
{
    if pairs.len() > 0 {
        let before = render::listed_classes(idx, pairs.drop_last());
        if i < before.len() {
            lemma_listed_in_workspace(idx, pairs.drop_last(), i);
        }
    }
}

/// The classes of the workspace that inherit from a class directly.
pub fn query_subtypes(index: &WorkspaceIndex, file: &str, canonical: &Option<String>, class_name: &str) -> (answer: Result<Vec<HierarchyItem>, QueryError>)
    requires
        index.wf(),
    ensures
        errors::answers(answer, subtypes(index@, file@, canonical.deep_view(), class_name@)),
{
    let ghost idx = index@;
    let module = match open_file(index, file, canonical) {
        Err(error) => {
            return Err(error);
        },
        Ok(module) => module,
    };
    let class = match locate_class_target(&module, class_name) {
        Err(error) => {
            return Err(error);
        },
        Ok(class) => class,
    };
    let found = find_listed_subtypes(index, module.name.as_str(), class.name.as_str());
    let ghost pairs = render::listed_subtypes(idx, module.name@, class.name@);
    let ghost all = found.deep_view();
    let ghost goal = subtype_items(idx, all);
    let mut items: Vec<HierarchyItem> = Vec::new();
    let mut i: usize = 0;
    while i < found.len()
        invariant
            i <= found@.len(),
            index.wf(),
            idx == index@,
            all == found.deep_view(),
            all == render::listed_classes(idx, pairs),
            goal == subtype_items(idx, all),
            items@.len() == i,
            forall|k: int| 0 <= k < i ==> (#[trigger] items@[k]).deep_view() == goal[k],
        decreases found@.len() - i,
    {
        assert(all[i as int] == found@[i as int].deep_view());
        proof {
            lemma_listed_in_workspace(idx, pairs, i as int);
        }
        match index.modules_by_name.get(found[i].0.as_str()) {
            Some(info) => {
                let item = hierarchy_item_from_class(info, found[i].1, false, String::new());
                assert(item.deep_view().detail =~= Seq::empty());
                items.push(item);
            },
            None => {
                assert(false);
            },
        }
        i = i + 1;
    }
    assert(items.deep_view() =~= goal);
    Ok(sort_items(items))
}

/// The members of a class of a module.
pub open spec fn members_of(info: ModuleView, class: ClassView) -> MembersView {
    MembersView {
        file: info.path,
        class_name: class.name,
        methods: class.methods,
        fields: class.fields,
    }
}

/// The members of a class of a module.
fn copy_members(info: &ModuleInfo, class: &ClassInfo) -> (members: ClassMembersResult)
    ensures
        members.deep_view() == members_of(info.deep_view(), class.deep_view()),
{
    let members = ClassMembersResult {
        file: info.path.clone(),
        class_name: class.name.clone(),
        methods: class.methods.clone(),
        fields: class.fields.clone(),
    };
    assert(members.methods.deep_view() =~= class.methods.deep_view());
    assert(members.fields.deep_view() =~= class.fields.deep_view());
    members
}

/// The answer to `query_class_members`.
pub open spec fn class_members(idx: IndexView, file: Text, canonical: Option<Text>, class_name: Text) -> Result<MembersView, QueryErrorView> {
    match targets::module_in(idx, file, canonical) {
        Err(error) => Err(error),
        Ok(module) => match targets::class_target(module, class_name) {
            Err(error) => Err(error),
            Ok(class) => Ok(members_of(module.info, class)),
        },
    }
}

/// The members of a class.
pub fn query_class_members(index: &WorkspaceIndex, file: &str, canonical: &Option<String>, class_name: &str) -> (answer: Result<ClassMembersResult, QueryError>)
    requires
        index.wf(),
    ensures
        errors::answers(answer, class_members(index@, file@, canonical.deep_view(), class_name@)),
{
    match open_file(index, file, canonical) {
        Err(error) => Err(error),
        Ok(module) => match locate_class_target(&module, class_name) {
            Err(error) => Err(error),
            Ok(class) => Ok(copy_members(module.info, class)),
        },
    }
}

/// The members of the class of a name in the module of a name.
pub open spec fn members_at(idx: IndexView, module: Text, class_name: Text) -> Result<MembersView, QueryErrorView> {
    match targets::opened(idx, module) {
        Err(error) => Err(error),
        Ok(opened) => match opened.info.class_named(class_name) {
            Some(class) => Ok(members_of(opened.info, class)),
            None => Err(QueryErrorView::ClassMissing { module, class_name }),
        },
    }
}

/// The answer to `query_resolved_class_fields`.
pub open spec fn resolved_class_fields(idx: IndexView, file: Text, canonical: Option<Text>, raw_type: Text) -> Result<MembersView, QueryErrorView> {
    match targets::module_in(idx, file, canonical) {
        Err(error) => Err(error),
        Ok(module) => match resolve::base_in(idx, module.info, raw_type) {
            Err(fault) => Err(QueryErrorView::Unfollowed(fault)),
            Ok(BaseView::Unresolved { display }) => Err(
                QueryErrorView::UnresolvedType { display, file },
            ),
            Ok(BaseView::Workspace { module: at, class_name, .. }) => members_at(
                idx,
                at,
                class_name,
            ),
            Ok(BaseView::External { module: at, class_name, .. }) => members_at(
                idx,
                at,
                class_name,
            ),
        },
    }
}

/// The members of the class of a name in the module of a name.
fn find_members(index: &WorkspaceIndex, module: String, class_name: String) -> (answer: Result<ClassMembersResult, QueryError>)
    requires
        index.wf(),
    ensures
        errors::answers(answer, members_at(index@, module@, class_name@)),
{
    match open_module(index, module) {
        Err(error) => Err(error),
        Ok(opened) => match opened.info.class_named(class_name.as_str()) {
            Some(class) => Ok(copy_members(opened.info, class)),
            None => Err(QueryError::ClassMissing { module: opened.name, class_name }),
        },
    }
}

/// The members of the class that a type, as it is written in a file, stands for.
pub fn query_resolved_class_fields(index: &WorkspaceIndex, file: &str, canonical: &Option<String>, raw_type: &str) -> (answer: Result<ClassMembersResult, QueryError>)
    requires
        index.wf(),
    ensures
        errors::answers(
            answer,
            resolved_class_fields(index@, file@, canonical.deep_view(), raw_type@),
        ),
{
    let module = match open_file(index, file, canonical) {
        Err(error) => {
            return Err(error);
        },
        Ok(module) => module,
    };
    match resolve_base(index, module.info, raw_type) {
        Err(fault) => Err(QueryError::Unfollowed(fault)),
        Ok(ResolvedBase::Unresolved { display }) => Err(
            QueryError::UnresolvedType { display, file: file.to_owned() },
        ),
        Ok(ResolvedBase::Workspace { module: at, class_name, .. }) => find_members(
            index,
            at,
            class_name,
        ),
        Ok(ResolvedBase::External { module: at, class_name, .. }) => find_members(
            index,
            at,
            class_name,
        ),
    }
}

/// The answer to `query_outgoing_calls`, or to `query_incoming_calls`.
pub open spec fn calls(idx: IndexView, file: Text, canonical: Option<Text>, symbol_name: Text, line: Option<usize>, col: Option<usize>, incoming: bool) -> Result<Seq<EdgeView>, QueryErrorView> {
    match targets::module_in(idx, file, canonical) {
        Err(error) => Err(error),
        Ok(module) => match targets::function_target(module, symbol_name, line, col) {
            Err(error) => Err(error),
            Ok(function) => Ok(
                calltree::listed_edges(
                    idx,
                    model::callable_key_of(module.name, function),
                    incoming,
                ),
            ),
        },
    }
}

fn query_calls(index: &WorkspaceIndex, file: &str, canonical: &Option<String>, symbol_name: &str, line: Option<usize>, col: Option<usize>, incoming: bool) -> (answer: Result<Vec<CallHierarchyEdge>, QueryError>)
    requires
        index.wf(),
    ensures
        errors::answers(
            answer,
            calls(index@, file@, canonical.deep_view(), symbol_name@, line, col, incoming),
        ),
{
    match open_file(index, file, canonical) {
        Err(error) => Err(error),
        Ok(module) => match locate_function_target(&module, symbol_name, line, col) {
            Err(error) => Err(error),
            Ok(function) => {
                let key = callable_key(module.name.as_str(), function);
                Ok(list_edges(index, key.as_str(), incoming))
            },
        },
    }
}

/// The functions that a function calls.
pub fn query_outgoing_calls(index: &WorkspaceIndex, file: &str, canonical: &Option<String>, symbol_name: &str, line: Option<usize>, col: Option<usize>) -> (answer: Result<Vec<CallHierarchyEdge>, QueryError>)
    requires
        index.wf(),
    ensures
        errors::answers(
            answer,
            calls(index@, file@, canonical.deep_view(), symbol_name@, line, col, false),
        ),
{
    query_calls(index, file, canonical, symbol_name, line, col, false)
}

/// The functions that call a function.
pub fn query_incoming_calls(index: &WorkspaceIndex, file: &str, canonical: &Option<String>, symbol_name: &str, line: Option<usize>, col: Option<usize>) -> (answer: Result<Vec<CallHierarchyEdge>, QueryError>)
    requires
        index.wf(),
    ensures
        errors::answers(
            answer,
            calls(index@, file@, canonical.deep_view(), symbol_name@, line, col, true),
        ),
{
    query_calls(index, file, canonical, symbol_name, line, col, true)
}

/// Whether a position lies in a stretch of a source.
pub open spec fn covers(range: SourceRange, line: usize, col: usize) -> bool {
    &&& range.start.line <= line <= range.end.line
    &&& line == range.start.line ==> range.start.col <= col
    &&& line == range.end.line ==> col <= range.end.col
}

/// Whether a position lies in a stretch of a source.
pub fn range_contains_position(range: &SourceRange, line: usize, col: usize) -> (r: bool)
    ensures
        r == covers(*range, line, col),
{
    if line < range.start.line || line > range.end.line {
        return false;
    }
    if line == range.start.line && col < range.start.col {
        return false;
    }
    if line == range.end.line && col > range.end.col {
        return false;
    }
    true
}

/// A reference that covers the cursor: how far its start is from the cursor's line, how wide it
/// is, and what it stands for.
pub struct CandidateView {
    pub distance: int,
    pub width: int,
    pub reference: ReferenceView,
}

/// How far two numbers are apart.
pub open spec fn apart(a: int, b: int) -> int {
    if a < b {
        b - a
    } else {
        a - b
    }
}

/// What a reference stands for.
pub open spec fn reference_to(callable: CallableView) -> ReferenceView {
    ReferenceView {
        name: callable.item.name,
        path: callable.item.path,
        line: callable.item.line,
        col: callable.item.col,
        kind: callable.item.kind,
        external: callable.item.external,
    }
}

/// A call that covers the cursor, with the function that it leads to.
pub open spec fn candidate(call: CallView, callable: CallableView, line: usize) -> CandidateView {
    CandidateView {
        distance: apart(line as int, call.range.start.line as int),
        width: if call.range.end.col > call.range.start.col {
            call.range.end.col - call.range.start.col
        } else {
            0
        },
        reference: reference_to(callable),
    }
}

/// The closer of two candidates: by distance, then by width; the first one where both are equal.
pub open spec fn closer(best: Option<CandidateView>, next: CandidateView) -> CandidateView {
    match best {
        Some(b) => if b.distance < next.distance || (b.distance == next.distance && b.width
            <= next.width) {
            b
        } else {
            next
        },
        None => next,
    }
}

/// The best candidate among calls of a function, given the best one before them.
pub open spec fn best_call(idx: IndexView, info: ModuleView, function: FunctionView, calls: Seq<CallView>, line: usize, col: usize, best: Option<CandidateView>) -> Result<Option<CandidateView>, FaultView>
    decreases calls.len(),
{
    if calls.len() == 0 {
        Ok(best)
    } else {
        match best_call(idx, info, function, calls.drop_last(), line, col, best) {
            Err(fault) => Err(fault),
            Ok(before) => if covers(calls.last().range, line, col) {
                match callables::callable_in(idx, info, function, calls.last().raw_target) {
                    Err(fault) => Err(fault),
                    Ok(Some(callable)) => Ok(
                        Some(closer(before, candidate(calls.last(), callable, line))),
                    ),
                    Ok(None) => Ok(before),
                }
            } else {
                Ok(before)
            },
        }
    }
}

/// The best candidate among the calls of functions.
pub open spec fn best_reference(idx: IndexView, info: ModuleView, functions: Seq<FunctionView>, line: usize, col: usize) -> Result<Option<CandidateView>, FaultView>
    decreases functions.len(),
{
    if functions.len() == 0 {
        Ok(None)
    } else {
        let function = functions.last();
        match best_reference(idx, info, functions.drop_last(), line, col) {
            Err(fault) => Err(fault),
            Ok(best) => best_call(idx, info, function, function.calls, line, col, best),
        }
    }
}

/// What a call offers to a cursor: a candidate, where it covers the cursor and leads to a function.
pub open spec fn offered(idx: IndexView, info: ModuleView, function: FunctionView, call: CallView, line: usize, col: usize) -> Option<CandidateView> {
    if covers(call.range, line, col) {
        match callables::callable_in(idx, info, function, call.raw_target) {
            Ok(Some(callable)) => Some(candidate(call, callable, line)),
            _ => None,
        }
    } else {
        None
    }
}

/// Whether a candidate is as close as another: by distance, then by width.
pub open spec fn as_close(a: CandidateView, b: CandidateView) -> bool {
    a.distance < b.distance || (a.distance == b.distance && a.width <= b.width)
}

/// Whether a candidate was found that is as close as another.
pub open spec fn beats(best: Option<CandidateView>, other: CandidateView) -> bool {
    best matches Some(b) && as_close(b, other)
}

proof fn lemma_best_call(idx: IndexView, info: ModuleView, function: FunctionView, calls: Seq<CallView>, line: usize, col: usize, best: Option<CandidateView>)
    ensures
        best_call(idx, info, function, calls, line, col, best) matches Ok(found) ==> {
            &&& best matches Some(b) ==> beats(found, b)
            &&& forall|i: int|
                0 <= i < calls.len() ==> (offered(idx, info, function, #[trigger] calls[i], line, col) matches Some(
                    x,
                ) ==> beats(found, x))
            &&& found is Some ==> found == best || exists|i: int|
                0 <= i < calls.len() && found == offered(idx, info, function, #[trigger] calls[i], line, col)
        },
    decreases calls.len(),
{
    if calls.len() > 0 {
        let front = calls.drop_last();
        lemma_best_call(idx, info, function, front, line, col, best);
        if let Ok(found) = best_call(idx, info, function, calls, line, col, best) {
            let before = best_call(idx, info, function, front, line, col, best)->Ok_0;
            assert forall|i: int| 0 <= i < calls.len() implies (offered(
                idx,
                info,
                function,
                #[trigger] calls[i],
                line,
                col,
            ) matches Some(x) ==> beats(found, x)) by {
                if i < front.len() {
                    assert(front[i] == calls[i]);
                }
            }
            if found is Some && found != best {
                if found == before {
                    let i = choose|i: int|
                        0 <= i < front.len() && before == offered(
                            idx,
                            info,
                            function,
                            #[trigger] front[i],
                            line,
                            col,
                        );
                    assert(calls[i] == front[i]);
                } else {
                    assert(found == offered(idx, info, function, calls[calls.len() - 1], line, col));
                }
            }
        }
    }
}

/// The reference under a cursor is one that a call offers, and as close as any that a call offers;
/// there is one exactly where a call offers one.
pub proof fn law_the_closest_reference_is_taken(idx: IndexView, info: ModuleView, functions: Seq<FunctionView>, line: usize, col: usize)
    ensures
        best_reference(idx, info, functions, line, col) matches Ok(found) ==> {
            &&& forall|f: int, i: int|
                0 <= f < functions.len() && 0 <= i < functions[f].calls.len() ==> (offered(
                    idx,
                    info,
                    functions[f],
                    #[trigger] functions[f].calls[i],
                    line,
                    col,
                ) matches Some(x) ==> beats(found, x))
            &&& found is Some ==> exists|f: int, i: int|
                0 <= f < functions.len() && 0 <= i < functions[f].calls.len() && found == offered(
                    idx,
                    info,
                    functions[f],
                    #[trigger] functions[f].calls[i],
                    line,
                    col,
                )
        },
    decreases functions.len(),
{
    if functions.len() > 0 {
        let front = functions.drop_last();
        let last = functions.last();
        law_the_closest_reference_is_taken(idx, info, front, line, col);
        if let Ok(before) = best_reference(idx, info, front, line, col) {
            lemma_best_call(idx, info, last, last.calls, line, col, before);
            if let Ok(found) = best_reference(idx, info, functions, line, col) {
                assert forall|f: int, i: int|
                    0 <= f < functions.len() && 0 <= i < functions[f].calls.len() implies (offered(
                    idx,
                    info,
                    functions[f],
                    #[trigger] functions[f].calls[i],
                    line,
                    col,
                ) matches Some(x) ==> beats(found, x)) by {
                    if f < front.len() {
                        assert(front[f].calls[i] == functions[f].calls[i]);
                    } else {
                        assert(last.calls[i] == functions[f].calls[i]);
                    }
                }
                if found is Some {
                    if found == before {
                        let (f, i) = choose|f: int, i: int|
                            0 <= f < front.len() && 0 <= i < front[f].calls.len() && before == offered(
                                idx,
                                info,
                                front[f],
                                #[trigger] front[f].calls[i],
                                line,
                                col,
                            );
                        assert(functions[f].calls[i] == front[f].calls[i]);
                    } else {
                        let i = choose|i: int|
                            0 <= i < last.calls.len() && found == offered(
                                idx,
                                info,
                                last,
                                #[trigger] last.calls[i],
                                line,
                                col,
                            );
                        assert(functions[functions.len() - 1].calls[i] == last.calls[i]);
                    }
                }
            }
        }
    }
}

/// The answer to `query_resolved_callable_reference`.
pub open spec fn callable_reference(idx: IndexView, file: Text, canonical: Option<Text>, line: usize, col: usize) -> Result<ReferenceView, QueryErrorView> {
    match targets::module_in(idx, file, canonical) {
        Err(error) => Err(error),
        Ok(module) => match best_reference(idx, module.info, module.info.functions, line, col) {
            Err(fault) => Err(QueryErrorView::Unfollowed(fault)),
            Ok(Some(best)) => Ok(best.reference),
            Ok(None) => Err(QueryErrorView::NoReference),
        },
    }
}

/// A reference that covers the cursor.
struct Candidate {
    distance: usize,
    width: usize,
    reference: ResolvedCallableReference,
}

impl Candidate {
    spec fn viewed(&self) -> CandidateView {
        CandidateView {
            distance: self.distance as int,
            width: self.width as int,
            reference: self.reference.deep_view(),
        }
    }
}

spec fn best_viewed(best: Option<Candidate>) -> Option<CandidateView> {
    match best {
        Some(found) => Some(found.viewed()),
        None => None,
    }
}

/// A fault at one call is the fault of all.
proof fn lemma_call_fault(idx: IndexView, info: ModuleView, function: FunctionView, calls: Seq<CallView>, n: int, line: usize, col: usize, best: Option<CandidateView>)
    requires
        0 <= n <= calls.len(),
        best_call(idx, info, function, calls.take(n), line, col, best) is Err,
    ensures
        best_call(idx, info, function, calls, line, col, best) == best_call(
            idx,
            info,
            function,
            calls.take(n),
            line,
            col,
            best,
        ),
    decreases calls.len() - n,
{
    if n == calls.len() {
        assert(calls.take(n) =~= calls);
    } else {
        assert(calls.take(n + 1).drop_last() =~= calls.take(n));
        lemma_call_fault(idx, info, function, calls, n + 1, line, col, best);
    }
}

/// A fault at one function is the fault of all.
proof fn lemma_function_fault(idx: IndexView, info: ModuleView, functions: Seq<FunctionView>, n: int, line: usize, col: usize)
    requires
        0 <= n <= functions.len(),
        best_reference(idx, info, functions.take(n), line, col) is Err,
    ensures
        best_reference(idx, info, functions, line, col) == best_reference(
            idx,
            info,
            functions.take(n),
            line,
            col,
        ),
    decreases functions.len() - n,
{
    if n == functions.len() {
        assert(functions.take(n) =~= functions);
    } else {
        assert(functions.take(n + 1).drop_last() =~= functions.take(n));
        lemma_function_fault(idx, info, functions, n + 1, line, col);
    }
}

/// The best candidate among the calls of a function, given the best one before them.
fn find_best_call(index: &WorkspaceIndex, info: &ModuleInfo, function: &FunctionInfo, line: usize, col: usize, earlier: Option<Candidate>) -> (answer: Result<Option<Candidate>, errors::Fault>)
    requires
        index.wf(),
        info.wf(),
    ensures
        match answer {
            Ok(found) => best_call(
                index@,
                info.deep_view(),
                function.deep_view(),
                function.deep_view().calls,
                line,
                col,
                best_viewed(earlier),
            ) == Ok::<Option<CandidateView>, FaultView>(best_viewed(found)),
            Err(fault) => best_call(
                index@,
                info.deep_view(),
                function.deep_view(),
                function.deep_view().calls,
                line,
                col,
                best_viewed(earlier),
            ) == Err::<Option<CandidateView>, FaultView>(fault.deep_view()),
        },
{
    let ghost idx = index@;
    let ghost module = info.deep_view();
    let ghost viewed = function.deep_view();
    let ghost all = function.calls.deep_view();
    let ghost first = best_viewed(earlier);
    let mut best = earlier;
    let mut i: usize = 0;
    while i < function.calls.len()
        invariant
            i <= function.calls@.len(),
            index.wf(),
            info.wf(),
            idx == index@,
            module == info.deep_view(),
            viewed == function.deep_view(),
            all == function.calls.deep_view(),
            first == best_viewed(earlier),
            best_call(idx, module, viewed, all.take(i as int), line, col, first) == Ok::<
                Option<CandidateView>,
                FaultView,
            >(best_viewed(best)),
        decreases function.calls@.len() - i,
    {
        let call = &function.calls[i];
        assert(all.take(i as int + 1).drop_last() =~= all.take(i as int));
        assert(all.take(i as int + 1).last() == call.deep_view());
        if range_contains_position(&call.range, line, col) {
            match resolve_callable(index, info, function, call.raw_target.as_str()) {
                Err(fault) => {
                    proof {
                        lemma_call_fault(idx, module, viewed, all, i as int + 1, line, col, first);
                    }
                    return Err(fault);
                },
                Ok(None) => {},
                Ok(Some(resolved)) => {
                    let width = call.range.end.col.saturating_sub(call.range.start.col);
                    let start = call.range.start.line;
                    let distance = if line < start { start - line } else { line - start };
                    let next = Candidate {
                        distance,
                        width,
                        reference: ResolvedCallableReference {
                            name: resolved.item.name,
                            path: resolved.item.path,
                            line: resolved.item.line,
                            col: resolved.item.col,
                            kind: resolved.item.kind,
                            external: resolved.item.external,
                        },
                    };
                    let keep = match &best {
                        Some(held) => held.distance < distance || (held.distance == distance
                            && held.width <= width),
                        None => false,
                    };
                    if !keep {
                        best = Some(next);
                    }
                },
            }
        }
        i = i + 1;
    }
    assert(all.take(i as int) =~= all);
    Ok(best)
}

/// The function that the reference under the cursor stands for.
pub fn query_resolved_callable_reference(index: &WorkspaceIndex, file: &str, canonical: &Option<String>, line: usize, col: usize) -> (answer: Result<ResolvedCallableReference, QueryError>)
    requires
        index.wf(),
    ensures
        errors::answers(answer, callable_reference(index@, file@, canonical.deep_view(), line, col)),
{
    let ghost idx = index@;
    let module = match open_file(index, file, canonical) {
        Err(error) => {
            return Err(error);
        },
        Ok(module) => module,
    };
    let info = module.info;
    let ghost viewed = info.deep_view();
    let ghost all = info.functions.deep_view();
    let ghost goal = callable_reference(idx, file@, canonical.deep_view(), line, col);
    let mut best: Option<Candidate> = None;
    let mut i: usize = 0;
    while i < info.functions.len()
        invariant
            i <= info.functions@.len(),
            index.wf(),
            info.wf(),
            idx == index@,
            viewed == info.deep_view(),
            all == info.functions.deep_view(),
            goal == (match best_reference(idx, viewed, all, line, col) {
                Err(fault) => Err(QueryErrorView::Unfollowed(fault)),
                Ok(Some(best)) => Ok(best.reference),
                Ok(None) => Err(QueryErrorView::NoReference),
            }),
            goal == callable_reference(idx, file@, canonical.deep_view(), line, col),
            best_reference(idx, viewed, all.take(i as int), line, col) == Ok::<
                Option<CandidateView>,
                FaultView,
            >(best_viewed(best)),
        decreases info.functions@.len() - i,
    {
        assert(all.take(i as int + 1).drop_last() =~= all.take(i as int));
        assert(all.take(i as int + 1).last() == info.functions@[i as int].deep_view());
        match find_best_call(index, info, &info.functions[i], line, col, best) {
            Err(fault) => {
                proof {
                    lemma_function_fault(idx, viewed, all, i as int + 1, line, col);
                }
                return Err(QueryError::Unfollowed(fault));
            },
            Ok(found) => {
                best = found;
            },
        }
        i = i + 1;
    }
    assert(all.take(i as int) =~= all);
    match best {
        Some(found) => Ok(found.reference),
        None => Err(QueryError::NoReference),
    }
}

/// The answer to `query_supertypes_tree`.
pub open spec fn supertypes_tree(idx: IndexView, file: Text, canonical: Option<Text>, class_name: Text) -> Result<RowView, QueryErrorView> {
    match targets::module_in(idx, file, canonical) {
        Err(error) => Err(error),
        Ok(module) => match targets::class_target(module, class_name) {
            Err(error) => Err(error),
            Ok(class) => render::super_row(idx, module.name, class.name, Set::empty()),
        },
    }
}

/// The classes that a class inherits from, as a tree of rows.
pub fn query_supertypes_tree(index: &WorkspaceIndex, file: &str, canonical: &Option<String>, class_name: &str) -> (answer: Result<RenderTreeResult, QueryError>)
    requires
        index.wf(),
    ensures
        errors::answers(answer, supertypes_tree(index@, file@, canonical.deep_view(), class_name@)),
{
    match open_file(index, file, canonical) {
        Err(error) => Err(error),
        Ok(module) => match locate_class_target(&module, class_name) {
            Err(error) => Err(error),
            Ok(class) => {
                let mut visited = names_new();
                match build_super_render_node(
                    index,
                    module.name.as_str(),
                    class.name.as_str(),
                    &mut visited,
                ) {
                    Err(error) => Err(error),
                    Ok(tree) => Ok(RenderTreeResult { tree }),
                }
            },
        },
    }
}

/// The answer to `query_subtypes_tree_limited`.
pub open spec fn subtypes_tree(idx: IndexView, file: Text, canonical: Option<Text>, class_name: Text, max_depth: Option<usize>, member_depth: Option<usize>) -> Result<RowView, QueryErrorView> {
    match targets::module_in(idx, file, canonical) {
        Err(error) => Err(error),
        Ok(module) => match targets::class_target(module, class_name) {
            Err(error) => Err(error),
            Ok(class) => render::sub_row(
                idx,
                module.name,
                class.name,
                Set::empty(),
                max_depth,
                member_depth,
            ),
        },
    }
}

/// The classes that inherit from a class, as a tree of rows down to a depth.
pub fn query_subtypes_tree_limited(index: &WorkspaceIndex, file: &str, canonical: &Option<String>, class_name: &str, max_depth: Option<usize>, member_depth: Option<usize>) -> (answer: Result<RenderTreeResult, QueryError>)
    requires
        index.wf(),
    ensures
        errors::answers(
            answer,
            subtypes_tree(
                index@,
                file@,
                canonical.deep_view(),
                class_name@,
                max_depth,
                member_depth,
            ),
        ),
{
    match open_file(index, file, canonical) {
        Err(error) => Err(error),
        Ok(module) => match locate_class_target(&module, class_name) {
            Err(error) => Err(error),
            Ok(class) => {
                let mut visited = names_new();
                match build_sub_render_node_limited(
                    index,
                    module.name.as_str(),
                    class.name.as_str(),
                    &mut visited,
                    max_depth,
                    member_depth,
                ) {
                    Err(error) => Err(error),
                    Ok(tree) => Ok(RenderTreeResult { tree }),
                }
            },
        },
    }
}

/// The classes that inherit from a class, as a tree of rows.
pub fn query_subtypes_tree(index: &WorkspaceIndex, file: &str, canonical: &Option<String>, class_name: &str) -> (answer: Result<RenderTreeResult, QueryError>)
    requires
        index.wf(),
    ensures
        errors::answers(
            answer,
            subtypes_tree(index@, file@, canonical.deep_view(), class_name@, None, None),
        ),
{
    query_subtypes_tree_limited(index, file, canonical, class_name, None, None)
}

/// The answer to `query_outgoing_calls_tree`, or to `query_incoming_calls_tree`.
pub open spec fn calls_tree(idx: IndexView, file: Text, canonical: Option<Text>, symbol_name: Text, line: Option<usize>, col: Option<usize>, incoming: bool) -> Result<RowView, QueryErrorView> {
    match targets::module_in(idx, file, canonical) {
        Err(error) => Err(error),
        Ok(module) => match targets::function_target(module, symbol_name, line, col) {
            Err(error) => Err(error),
            Ok(function) => {
                let at = Place { path: module.info.path, line: function.line, col: function.col };
                match calltree::call_row(idx, module, function, at, incoming, Set::empty()) {
                    Err(fault) => Err(QueryErrorView::Unfollowed(fault)),
                    Ok(tree) => Ok(tree),
                }
            },
        },
    }
}

fn query_calls_tree(index: &WorkspaceIndex, file: &str, canonical: &Option<String>, symbol_name: &str, line: Option<usize>, col: Option<usize>, incoming: bool) -> (answer: Result<RenderTreeResult, QueryError>)
    requires
        index.wf(),
    ensures
        errors::answers(
            answer,
            calls_tree(index@, file@, canonical.deep_view(), symbol_name@, line, col, incoming),
        ),
{
    match open_file(index, file, canonical) {
        Err(error) => Err(error),
        Ok(module) => match locate_function_target(&module, symbol_name, line, col) {
            Err(error) => Err(error),
            Ok(function) => {
                proof {
                    index.lemma_view_wf();
                    calltree::lemma_function_target(
                        index@,
                        module.deep_view(),
                        symbol_name@,
                        line,
                        col,
                    );
                }
                let mut visited = names_new();
                match build_call_render_node(
                    index,
                    &module,
                    function,
                    module.info.path.as_str(),
                    function.line,
                    function.col,
                    incoming,
                    &mut visited,
                ) {
                    Err(fault) => Err(QueryError::Unfollowed(fault)),
                    Ok(tree) => Ok(RenderTreeResult { tree }),
                }
            },
        },
    }
}

/// The functions that a function calls, as a tree of rows.
pub fn query_outgoing_calls_tree(index: &WorkspaceIndex, file: &str, canonical: &Option<String>, symbol_name: &str, line: Option<usize>, col: Option<usize>) -> (answer: Result<RenderTreeResult, QueryError>)
    requires
        index.wf(),
    ensures
        errors::answers(
            answer,
            calls_tree(index@, file@, canonical.deep_view(), symbol_name@, line, col, false),
        ),
{
    query_calls_tree(index, file, canonical, symbol_name, line, col, false)
}

/// The functions that call a function, as a tree of rows.
pub fn query_incoming_calls_tree(index: &WorkspaceIndex, file: &str, canonical: &Option<String>, symbol_name: &str, line: Option<usize>, col: Option<usize>) -> (answer: Result<RenderTreeResult, QueryError>)
    requires
        index.wf(),
    ensures
        errors::answers(
            answer,
            calls_tree(index@, file@, canonical.deep_view(), symbol_name@, line, col, true),
        ),
{
    query_calls_tree(index, file, canonical, symbol_name, line, col, true)
}

} // verus!
