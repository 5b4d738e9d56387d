//! Who inherits from whom and who calls whom: what is derived from all modules of a workspace.
use vstd::prelude::*;

use crate::callables;
use crate::callables::resolve_callable;
use crate::callables::CallableView;
use crate::callables::ResolvedCallable;
use crate::errors::Fault;
use crate::errors::FaultView;
use crate::index::IndexView;
use crate::index::WorkspaceIndex;
use crate::model;
use crate::model::call_item_from_function;
use crate::model::callable_key;
use crate::model::class_key;
use crate::model::BaseView;
use crate::model::CallHierarchyEdge;
use crate::model::CallView;
use crate::model::ClassInfo;
use crate::model::ClassView;
use crate::model::EdgeView;
use crate::model::FunctionInfo;
use crate::model::FunctionView;
use crate::model::ModuleInfo;
use crate::model::ModuleView;
use crate::model::ResolvedBase;
use crate::model::SourceRange;
use crate::names::NameMap;
use crate::resolve;
use crate::resolve::resolve_base;
use crate::sorting;
use crate::sorting::key_of_text;
use crate::sorting::sort_keyed;
use crate::sorting::Key;
use crate::text::Text;

verus! {

/// A class and one of its bases, by the key of the base.
pub struct SubtypeView {
    pub base: Text,
    pub child: (Text, Text),
}

/// What was found on a walk over an index, and why some of it could not be.
#[verifier::ext_equal]
pub struct Harvest<T> {
    pub found: Seq<T>,
    pub faults: Seq<FaultView>,
}

/// The keys of the classes that bases stand for, each once.
pub open spec fn base_keys(idx: IndexView, info: ModuleView, bases: Seq<Text>) -> Harvest<Text>
    decreases bases.len(),
{
    if bases.len() == 0 {
        Harvest { found: Seq::empty(), faults: Seq::empty() }
    } else {
        let before = base_keys(idx, info, bases.drop_last());
        match resolve::base_in(idx, info, bases.last()) {
            Err(fault) => Harvest { faults: before.faults.push(fault), ..before },
            Ok(BaseView::Workspace { module, class_name, .. }) => with_key(
                before,
                model::class_key_of(module, class_name),
            ),
            Ok(BaseView::External { module, class_name, .. }) => with_key(
                before,
                model::class_key_of(module, class_name),
            ),
            Ok(BaseView::Unresolved { .. }) => before,
        }
    }
}

/// The keys, with one more where it is not among them.
pub open spec fn with_key(keys: Harvest<Text>, key: Text) -> Harvest<Text> {
    if keys.found.contains(key) {
        keys
    } else {
        Harvest { found: keys.found.push(key), ..keys }
    }
}

/// A class with each of its bases.
pub open spec fn class_subtypes(idx: IndexView, name: Text, info: ModuleView, class: ClassView) -> Harvest<SubtypeView> {
    let keys = base_keys(idx, info, class.bases);
    Harvest {
        found: keys.found.map_values(|key: Text| SubtypeView { base: key, child: (name, class.name) }),
        faults: keys.faults,
    }
}

/// Two harvests, one behind the other.
pub open spec fn joint<T>(a: Harvest<T>, b: Harvest<T>) -> Harvest<T> {
    Harvest { found: a.found + b.found, faults: a.faults + b.faults }
}

/// Classes of a module with each of their bases.
pub open spec fn classes_subtypes(idx: IndexView, name: Text, info: ModuleView, classes: Seq<ClassView>) -> Harvest<SubtypeView>
    decreases classes.len(),
{
    if classes.len() == 0 {
        Harvest { found: Seq::empty(), faults: Seq::empty() }
    } else {
        joint(
            classes_subtypes(idx, name, info, classes.drop_last()),
            class_subtypes(idx, name, info, classes.last()),
        )
    }
}

/// The classes of workspace modules with each of their bases.
pub open spec fn workspace_subtypes(idx: IndexView, modules: Seq<Text>) -> Harvest<SubtypeView>
    decreases modules.len(),
{
    if modules.len() == 0 {
        Harvest { found: Seq::empty(), faults: Seq::empty() }
    } else {
        let name = modules.last();
        joint(
            workspace_subtypes(idx, modules.drop_last()),
            classes_subtypes(idx, name, idx.workspace[name], idx.workspace[name].classes),
        )
    }
}

/// The children of a base, in the order found.
pub open spec fn children(pairs: Seq<SubtypeView>, base: Text) -> Seq<(Text, Text)>
    decreases pairs.len(),
{
    if pairs.len() == 0 {
        Seq::empty()
    } else if pairs.last().base == base {
        children(pairs.drop_last(), base).push(pairs.last().child)
    } else {
        children(pairs.drop_last(), base)
    }
}

/// Whether a class inherits from this base.
pub open spec fn is_base(pairs: Seq<SubtypeView>, base: Text) -> bool {
    exists|i: int| 0 <= i < pairs.len() && (#[trigger] pairs[i]).base == base
}

/// What orders children: first the module, then the class.
pub open spec fn child_key(child: (Text, Text)) -> Key {
    sorting::text_key(child.0).push(0) + sorting::text_key(child.1)
}

/// The children of each base, in order.
pub open spec fn subtype_table(pairs: Seq<SubtypeView>) -> Map<Text, Seq<(Text, Text)>> {
    Map::new(
        |base: Text| is_base(pairs, base),
        |base: Text| sorting::sorted(children(pairs, base), |child: (Text, Text)| child_key(child)),
    )
}

/// A call from one function to another.
pub struct LinkView {
    pub caller: CallableView,
    pub target: CallableView,
    pub range: SourceRange,
}

/// The links that calls of a function make.
pub open spec fn call_links(idx: IndexView, info: ModuleView, function: FunctionView, caller: CallableView, calls: Seq<CallView>) -> Harvest<LinkView>
    decreases calls.len(),
{
    if calls.len() == 0 {
        Harvest { found: Seq::empty(), faults: Seq::empty() }
    } else {
        let before = call_links(idx, info, function, caller, calls.drop_last());
        match callables::callable_in(idx, info, function, calls.last().raw_target) {
            Err(fault) => Harvest { faults: before.faults.push(fault), ..before },
            Ok(Some(target)) => Harvest {
                found: before.found.push(LinkView { caller, target, range: calls.last().range }),
                ..before
            },
            Ok(None) => before,
        }
    }
}

/// A function of a workspace module as a caller.
pub open spec fn caller_of(info: ModuleView, function: FunctionView) -> CallableView {
    CallableView {
        key: model::callable_key_of(info.module_name, function),
        item: model::item_of_function(info, function, false),
    }
}

/// The links that functions of a module make.
pub open spec fn function_links(idx: IndexView, info: ModuleView, functions: Seq<FunctionView>) -> Harvest<LinkView>
    decreases functions.len(),
{
    if functions.len() == 0 {
        Harvest { found: Seq::empty(), faults: Seq::empty() }
    } else {
        let function = functions.last();
        joint(
            function_links(idx, info, functions.drop_last()),
            call_links(idx, info, function, caller_of(info, function), function.calls),
        )
    }
}

/// The links that workspace modules make.
pub open spec fn workspace_links(idx: IndexView, modules: Seq<Text>) -> Harvest<LinkView>
    decreases modules.len(),
{
    if modules.len() == 0 {
        Harvest { found: Seq::empty(), faults: Seq::empty() }
    } else {
        let info = idx.workspace[modules.last()];
        joint(
            workspace_links(idx, modules.drop_last()),
            function_links(idx, info, info.functions),
        )
    }
}

/// The near end of a link: the caller, or the target where incoming calls are asked for.
pub open spec fn near(link: LinkView, incoming: bool) -> CallableView {
    if incoming {
        link.target
    } else {
        link.caller
    }
}

/// The far end of a link.
pub open spec fn far(link: LinkView, incoming: bool) -> CallableView {
    near(link, !incoming)
}

/// The place of the edge to a key.
pub open spec fn edge_slot(edges: Seq<(Text, EdgeView)>, key: Text) -> Option<int>
    decreases edges.len(),
{
    if edges.len() == 0 {
        None
    } else if edges.last().0 == key {
        Some(edges.len() - 1)
    } else {
        edge_slot(edges.drop_last(), key)
    }
}

/// The edges, with one more call: another place on the edge that there is, or a new edge.
pub open spec fn with_call(edges: Seq<(Text, EdgeView)>, end: CallableView, range: SourceRange) -> Seq<(Text, EdgeView)> {
    match edge_slot(edges, end.key) {
        Some(i) => edges.update(
            i,
            (
                edges[i].0,
                EdgeView { from_ranges: edges[i].1.from_ranges.push(range), ..edges[i].1 },
            ),
        ),
        None => edges.push(
            (end.key, EdgeView { item: end.item, from_ranges: seq![range] }),
        ),
    }
}

/// The edges of the function of a key: one for each function at the far end of its links.
pub open spec fn edges_of(links: Seq<LinkView>, key: Text, incoming: bool) -> Seq<(Text, EdgeView)>
    decreases links.len(),
{
    if links.len() == 0 {
        Seq::empty()
    } else {
        let before = edges_of(links.drop_last(), key, incoming);
        let link = links.last();
        if near(link, incoming).key == key {
            with_call(before, far(link, incoming), link.range)
        } else {
            before
        }
    }
}

/// Whether a function has an edge.
pub open spec fn has_edge(links: Seq<LinkView>, key: Text, incoming: bool) -> bool {
    exists|i: int| 0 <= i < links.len() && near(#[trigger] links[i], incoming).key == key
}

/// The edges of each function that has some.
pub open spec fn edge_table(links: Seq<LinkView>, incoming: bool) -> Map<Text, Seq<(Text, EdgeView)>> {
    Map::new(
        |key: Text| has_edge(links, key, incoming),
        |key: Text| edges_of(links, key, incoming),
    )
}

/// The index, with who inherits from whom and who calls whom.
pub open spec fn linked(idx: IndexView) -> IndexView {
    let pairs = workspace_subtypes(idx, idx.order).found;
    let links = workspace_links(idx, idx.order).found;
    IndexView {
        subtypes: subtype_table(pairs),
        outgoing: edge_table(links, false),
        incoming: edge_table(links, true),
        ..idx
    }
}

/// Why the index cannot be linked.
pub open spec fn link_faults(idx: IndexView) -> Seq<FaultView> {
    workspace_subtypes(idx, idx.order).faults + workspace_links(idx, idx.order).faults
}

/// The places of the calls on the edge to a key.
pub open spec fn places(edges: Seq<(Text, EdgeView)>, key: Text) -> Seq<SourceRange> {
    match edge_slot(edges, key) {
        Some(i) => edges[i].1.from_ranges,
        None => Seq::empty(),
    }
}

/// The places at which one function calls another.
pub open spec fn places_between(links: Seq<LinkView>, caller: Text, target: Text) -> Seq<SourceRange>
    decreases links.len(),
{
    if links.len() == 0 {
        Seq::empty()
    } else {
        let before = places_between(links.drop_last(), caller, target);
        if links.last().caller.key == caller && links.last().target.key == target {
            before.push(links.last().range)
        } else {
            before
        }
    }
}

/// The place of the edge to a key is one, and none behind it leads there.
pub proof fn lemma_edge_slot(edges: Seq<(Text, EdgeView)>, key: Text)
    ensures
        edge_slot(edges, key) matches Some(i) ==> 0 <= i < edges.len() && edges[i].0 == key,
        forall|k: int|
            0 <= k < edges.len() && (#[trigger] edges[k]).0 == key ==> edge_slot(edges, key) is Some
                && k <= edge_slot(edges, key)->0,
    decreases edges.len(),
{
    if edges.len() > 0 && edges.last().0 != key {
        lemma_edge_slot(edges.drop_last(), key);
        assert forall|k: int| 0 <= k < edges.len() && (#[trigger] edges[k]).0 == key implies edge_slot(
            edges,
            key,
        ) is Some && k <= edge_slot(edges, key)->0 by {
            assert(edges.drop_last()[k] == edges[k]);
        }
    }
}

proof fn lemma_same_keys_same_slot(a: Seq<(Text, EdgeView)>, b: Seq<(Text, EdgeView)>, key: Text)
    requires
        a.len() == b.len(),
        forall|k: int| 0 <= k < a.len() ==> (#[trigger] a[k]).0 == b[k].0,
    ensures
        edge_slot(a, key) == edge_slot(b, key),
    decreases a.len(),
{
    if a.len() > 0 {
        assert(a.last().0 == b.last().0);
        assert forall|k: int| 0 <= k < a.drop_last().len() implies (#[trigger] a.drop_last()[k]).0
            == b.drop_last()[k].0 by {
            assert(a[k].0 == b[k].0);
        }
        lemma_same_keys_same_slot(a.drop_last(), b.drop_last(), key);
    }
}

proof fn lemma_places_with_call(edges: Seq<(Text, EdgeView)>, end: CallableView, range: SourceRange, key: Text)
    ensures
        places(with_call(edges, end, range), key) == (if end.key == key {
            places(edges, key).push(range)
        } else {
            places(edges, key)
        }),
{
    let next = with_call(edges, end, range);
    lemma_edge_slot(edges, end.key);
    lemma_edge_slot(edges, key);
    lemma_edge_slot(next, key);
    match edge_slot(edges, end.key) {
        Some(i) => {
            lemma_same_keys_same_slot(next, edges, key);
        },
        None => {
            assert(next.drop_last() =~= edges);
            if end.key == key {
                assert(places(edges, key).push(range) =~= seq![range]);
            }
        },
    }
}

/// The places on an edge are those of the calls between its two functions.
pub proof fn lemma_places(links: Seq<LinkView>, near_key: Text, far_key: Text, incoming: bool)
    ensures
        places(edges_of(links, near_key, incoming), far_key) == (if incoming {
            places_between(links, far_key, near_key)
        } else {
            places_between(links, near_key, far_key)
        }),
    decreases links.len(),
{
    if links.len() > 0 {
        lemma_places(links.drop_last(), near_key, far_key, incoming);
        let before = edges_of(links.drop_last(), near_key, incoming);
        let link = links.last();
        lemma_places_with_call(before, far(link, incoming), link.range, far_key);
    }
}

proof fn lemma_no_edge(links: Seq<LinkView>, key: Text, incoming: bool)
    requires
        !has_edge(links, key, incoming),
    ensures
        edges_of(links, key, incoming) == Seq::<(Text, EdgeView)>::empty(),
    decreases links.len(),
{
    if links.len() > 0 {
        assert(near(links[links.len() - 1], incoming).key != key);
        if has_edge(links.drop_last(), key, incoming) {
            let i = choose|i: int|
                0 <= i < links.drop_last().len() && near(
                    #[trigger] links.drop_last()[i],
                    incoming,
                ).key == key;
            assert(near(links[i], incoming).key == key);
        }
        lemma_no_edge(links.drop_last(), key, incoming);
    }
}

/// The places of the calls between two functions that a table of edges lists.
pub open spec fn listed_places(table: Map<Text, Seq<(Text, EdgeView)>>, near_key: Text, far_key: Text) -> Seq<SourceRange> {
    if table.contains_key(near_key) {
        places(table[near_key], far_key)
    } else {
        Seq::empty()
    }
}

/// One function calls another at the places at which the other is called by it.
pub proof fn law_incoming_calls_mirror_outgoing_calls(idx: IndexView, caller: Text, target: Text)
    ensures
        listed_places(linked(idx).outgoing, caller, target) == listed_places(
            linked(idx).incoming,
            target,
            caller,
        ),
{
    let links = workspace_links(idx, idx.order).found;
    lemma_places(links, caller, target, false);
    lemma_places(links, target, caller, true);
    if !has_edge(links, caller, false) {
        lemma_no_edge(links, caller, false);
    }
    if !has_edge(links, target, true) {
        lemma_no_edge(links, target, true);
    }
}

/// Each function at the far end of a function's links has one edge.
pub proof fn law_edges_are_distinct(links: Seq<LinkView>, key: Text, incoming: bool)
    ensures
        forall|i: int, j: int|
            0 <= i < j < edges_of(links, key, incoming).len() ==> (#[trigger] edges_of(
                links,
                key,
                incoming,
            )[i]).0 != (#[trigger] edges_of(links, key, incoming)[j]).0,
    decreases links.len(),
{
    if links.len() > 0 {
        law_edges_are_distinct(links.drop_last(), key, incoming);
        let before = edges_of(links.drop_last(), key, incoming);
        lemma_edge_slot(before, far(links.last(), incoming).key);
    }
}

/// Whether a base of a class stands for the class of a key.
pub open spec fn inherits(idx: IndexView, info: ModuleView, class: ClassView, key: Text) -> bool {
    exists|i: int|
        0 <= i < class.bases.len() && resolves_to(idx, info, #[trigger] class.bases[i], key)
}

/// Whether a base stands for the class of a key.
pub open spec fn resolves_to(idx: IndexView, info: ModuleView, base: Text, key: Text) -> bool {
    match resolve::base_in(idx, info, base) {
        Ok(BaseView::Workspace { module, class_name, .. }) => key == model::class_key_of(
            module,
            class_name,
        ),
        Ok(BaseView::External { module, class_name, .. }) => key == model::class_key_of(
            module,
            class_name,
        ),
        _ => false,
    }
}

proof fn lemma_base_keys(idx: IndexView, info: ModuleView, bases: Seq<Text>, key: Text)
    ensures
        base_keys(idx, info, bases).found.contains(key) <==> exists|i: int|
            0 <= i < bases.len() && resolves_to(idx, info, #[trigger] bases[i], key),
    decreases bases.len(),
{
    if bases.len() > 0 {
        let shorter = bases.drop_last();
        let before = base_keys(idx, info, shorter).found;
        lemma_base_keys(idx, info, shorter, key);
        match resolve::base_in(idx, info, bases.last()) {
            Ok(BaseView::Workspace { module, class_name, .. }) => {
                vstd::seq_lib::lemma_seq_contains_after_push(before, model::class_key_of(module, class_name), key);
            },
            Ok(BaseView::External { module, class_name, .. }) => {
                vstd::seq_lib::lemma_seq_contains_after_push(before, model::class_key_of(module, class_name), key);
            },
            _ => {},
        }
        if exists|i: int| 0 <= i < bases.len() && resolves_to(idx, info, #[trigger] bases[i], key) {
            let i = choose|i: int|
                0 <= i < bases.len() && resolves_to(idx, info, #[trigger] bases[i], key);
            if i < shorter.len() {
                assert(resolves_to(idx, info, shorter[i], key));
            }
        }
        if exists|i: int|
            0 <= i < shorter.len() && resolves_to(idx, info, #[trigger] shorter[i], key) {
            let i = choose|i: int|
                0 <= i < shorter.len() && resolves_to(idx, info, #[trigger] shorter[i], key);
            assert(resolves_to(idx, info, bases[i], key));
        }
        if resolves_to(idx, info, bases.last(), key) {
            assert(resolves_to(idx, info, bases[bases.len() - 1], key));
        }
    }
}

/// Whether one of these classes has this name and inherits from the class of a key.
pub open spec fn heir_among(idx: IndexView, info: ModuleView, classes: Seq<ClassView>, name: Text, key: Text) -> bool {
    exists|i: int|
        0 <= i < classes.len() && (#[trigger] classes[i]).name == name && inherits(
            idx,
            info,
            classes[i],
            key,
        )
}

proof fn lemma_classes_subtypes(idx: IndexView, module: Text, info: ModuleView, classes: Seq<ClassView>, pair: SubtypeView)
    ensures
        classes_subtypes(idx, module, info, classes).found.contains(pair) <==> pair.child.0 == module
            && heir_among(idx, info, classes, pair.child.1, pair.base),
    decreases classes.len(),
{
    if classes.len() > 0 {
        let shorter = classes.drop_last();
        let class = classes.last();
        lemma_classes_subtypes(idx, module, info, shorter, pair);
        let keys = base_keys(idx, info, class.bases).found;
        let here = class_subtypes(idx, module, info, class).found;
        lemma_base_keys(idx, info, class.bases, pair.base);
        vstd::seq_lib::lemma_seq_concat_contains_all_elements(classes_subtypes(idx, module, info, shorter).found, here, pair);
        assert(here.contains(pair) <==> keys.contains(pair.base) && pair.child == (
            module,
            class.name,
        )) by {
            if here.contains(pair) {
                let k = here.index_of(pair);
                assert(keys[k] == pair.base);
            }
            if keys.contains(pair.base) && pair.child == (module, class.name) {
                assert(here[keys.index_of(pair.base)] == pair);
            }
        }
        if heir_among(idx, info, classes, pair.child.1, pair.base) {
            let i = choose|i: int|
                0 <= i < classes.len() && (#[trigger] classes[i]).name == pair.child.1 && inherits(
                    idx,
                    info,
                    classes[i],
                    pair.base,
                );
            if i < shorter.len() {
                assert(shorter[i] == classes[i]);
            }
        }
        if heir_among(idx, info, shorter, pair.child.1, pair.base) {
            let i = choose|i: int|
                0 <= i < shorter.len() && (#[trigger] shorter[i]).name == pair.child.1 && inherits(
                    idx,
                    info,
                    shorter[i],
                    pair.base,
                );
            assert(classes[i] == shorter[i]);
        }
        if keys.contains(pair.base) && pair.child.1 == class.name {
            assert(classes[classes.len() - 1] == class);
        }
    }
}

proof fn lemma_workspace_subtypes(idx: IndexView, modules: Seq<Text>, pair: SubtypeView)
    ensures
        workspace_subtypes(idx, modules).found.contains(pair) <==> modules.contains(pair.child.0)
            && heir_among(
            idx,
            idx.workspace[pair.child.0],
            idx.workspace[pair.child.0].classes,
            pair.child.1,
            pair.base,
        ),
    decreases modules.len(),
{
    if modules.len() > 0 {
        let shorter = modules.drop_last();
        let name = modules.last();
        lemma_workspace_subtypes(idx, shorter, pair);
        lemma_classes_subtypes(
            idx,
            name,
            idx.workspace[name],
            idx.workspace[name].classes,
            pair,
        );
        vstd::seq_lib::lemma_seq_concat_contains_all_elements(
            workspace_subtypes(idx, shorter).found,
            classes_subtypes(idx, name, idx.workspace[name], idx.workspace[name].classes).found,
            pair,
        );
        assert(shorter.push(name) =~= modules);
        vstd::seq_lib::lemma_seq_contains_after_push(shorter, name, pair.child.0);
    }
}

proof fn lemma_children(pairs: Seq<SubtypeView>, base: Text, child: (Text, Text))
    ensures
        children(pairs, base).contains(child) <==> pairs.contains(SubtypeView { base, child }),
    decreases pairs.len(),
{
    if pairs.len() > 0 {
        let shorter = pairs.drop_last();
        lemma_children(shorter, base, child);
        assert(shorter.push(pairs.last()) =~= pairs);
        vstd::seq_lib::lemma_seq_contains_after_push(shorter, pairs.last(), SubtypeView { base, child });
        vstd::seq_lib::lemma_seq_contains_after_push(children(shorter, base), pairs.last().child, child);
    }
}

/// A class is listed as a subtype of another exactly where one of its bases stands for the other.
pub proof fn law_subtypes_invert_bases(idx: IndexView, base: Text, module: Text, class: Text)
    requires
        idx.workspace.dom() == idx.order.to_set(),
    ensures
        (linked(idx).subtypes.contains_key(base) && linked(idx).subtypes[base].contains(
            (module, class),
        )) <==> idx.workspace.contains_key(module) && heir_among(
            idx,
            idx.workspace[module],
            idx.workspace[module].classes,
            class,
            base,
        ),
{
    let pairs = workspace_subtypes(idx, idx.order).found;
    let pair = SubtypeView { base, child: (module, class) };
    let order = |child: (Text, Text)| child_key(child);
    lemma_workspace_subtypes(idx, idx.order, pair);
    lemma_children(pairs, base, (module, class));
    assert(idx.workspace.contains_key(module) <==> idx.order.contains(module));
    if pairs.contains(pair) {
        assert(pairs[pairs.index_of(pair)].base == base);
    }
    sorting::lemma_sorted_contains(children(pairs, base), order, (module, class));
}

/// The faults, with one more.
fn note(faults: &mut Vec<Fault>, fault: Fault)
    ensures
        final(faults).deep_view() == old(faults).deep_view().push(fault.deep_view()),
{
    let ghost before = faults.deep_view();
    let ghost viewed = fault.deep_view();
    faults.push(fault);
    assert(faults.deep_view() =~= before.push(viewed));
}

/// Whether a key is among keys.
fn has_key(keys: &Vec<String>, key: &String) -> (held: bool)
    ensures
        held == keys.deep_view().contains(key@),
{
    let ghost all = keys.deep_view();
    let mut i: usize = 0;
    while i < keys.len()
        invariant
            i <= keys@.len(),
            all == keys.deep_view(),
            forall|k: int| 0 <= k < i ==> #[trigger] all[k] != key@,
        decreases keys@.len() - i,
    {
        assert(all[i as int] == keys@[i as int]@);
        if keys[i] == *key {
            return true;
        }
        i = i + 1;
    }
    false
}

/// The keys of the classes that bases stand for, each once; faults are noted.
fn collect_base_keys(index: &WorkspaceIndex, info: &ModuleInfo, bases: &Vec<String>, faults: &mut Vec<Fault>) -> (keys: Vec<String>)
    requires
        index.wf(),
        info.wf(),
    ensures
        keys.deep_view() == base_keys(index@, info.deep_view(), bases.deep_view()).found,
        final(faults).deep_view() == old(faults).deep_view() + base_keys(
            index@,
            info.deep_view(),
            bases.deep_view(),
        ).faults,
{
    let ghost idx = index@;
    let ghost module = info.deep_view();
    let ghost all = bases.deep_view();
    let ghost noted = faults.deep_view();
    let mut keys: Vec<String> = Vec::new();
    let mut i: usize = 0;
    assert(keys.deep_view() =~= base_keys(idx, module, all.take(0)).found);
    assert(noted =~= noted + base_keys(idx, module, all.take(0)).faults);
    while i < bases.len()
        invariant
            i <= bases@.len(),
            index.wf(),
            info.wf(),
            idx == index@,
            module == info.deep_view(),
            all == bases.deep_view(),
            keys.deep_view() == base_keys(idx, module, all.take(i as int)).found,
            faults.deep_view() == noted + base_keys(idx, module, all.take(i as int)).faults,
        decreases bases@.len() - i,
    {
        let ghost now = all.take(i as int + 1);
        let ghost before = base_keys(idx, module, all.take(i as int));
        assert(now.drop_last() =~= all.take(i as int));
        assert(now.last() == bases@[i as int]@);
        let target = match resolve_base(index, info, bases[i].as_str()) {
            Err(fault) => {
                let ghost viewed = fault.deep_view();
                note(faults, fault);
                assert(faults.deep_view() =~= noted + before.faults.push(viewed));
                None
            },
            Ok(ResolvedBase::Workspace { module: base_module, class_name, .. }) => Some(
                class_key(base_module.as_str(), class_name.as_str()),
            ),
            Ok(ResolvedBase::External { module: base_module, class_name, .. }) => Some(
                class_key(base_module.as_str(), class_name.as_str()),
            ),
            Ok(ResolvedBase::Unresolved { .. }) => None,
        };
        if let Some(key) = target {
            if !has_key(&keys, &key) {
                let ghost spelled = key@;
                keys.push(key);
                assert(keys.deep_view() =~= before.found.push(spelled));
            }
        }
        i = i + 1;
    }
    assert(all.take(i as int) =~= all);
    keys
}

/// A class and one of its bases, by the key of the base.
struct Subtype {
    base: String,
    child: (String, String),
}

spec fn subtype_view(pair: Subtype) -> SubtypeView {
    SubtypeView { base: pair.base@, child: (pair.child.0@, pair.child.1@) }
}

spec fn subtype_views(pairs: Seq<Subtype>) -> Seq<SubtypeView> {
    pairs.map_values(|pair: Subtype| subtype_view(pair))
}

/// Adds a class with each of its bases; faults are noted.
fn collect_class_subtypes(index: &WorkspaceIndex, name: &String, info: &ModuleInfo, class: &ClassInfo, pairs: &mut Vec<Subtype>, faults: &mut Vec<Fault>)
    requires
        index.wf(),
        info.wf(),
    ensures
        subtype_views(final(pairs)@) == subtype_views(old(pairs)@) + class_subtypes(
            index@,
            name@,
            info.deep_view(),
            class.deep_view(),
        ).found,
        final(faults).deep_view() == old(faults).deep_view() + class_subtypes(
            index@,
            name@,
            info.deep_view(),
            class.deep_view(),
        ).faults,
{
    let ghost goal = class_subtypes(index@, name@, info.deep_view(), class.deep_view()).found;
    let ghost before = subtype_views(pairs@);
    let keys = collect_base_keys(index, info, &class.bases, faults);
    let mut i: usize = 0;
    assert(subtype_views(pairs@) =~= before + goal.take(0));
    while i < keys.len()
        invariant
            i <= keys@.len() == goal.len(),
            forall|k: int|
                0 <= k < goal.len() ==> #[trigger] goal[k] == (SubtypeView {
                    base: keys@[k]@,
                    child: (name@, class.name@),
                }),
            subtype_views(pairs@) == before + goal.take(i as int),
        decreases keys@.len() - i,
    {
        let ghost now = subtype_views(pairs@);
        pairs.push(Subtype { base: keys[i].clone(), child: (name.clone(), class.name.clone()) });
        assert(subtype_views(pairs@) =~= now.push(goal[i as int]));
        assert(before + goal.take(i as int + 1) =~= (before + goal.take(i as int)).push(
            goal[i as int],
        ));
        i = i + 1;
    }
    assert(goal.take(i as int) =~= goal);
}

/// The classes of workspace modules with each of their bases; faults are noted.
fn collect_subtypes(index: &WorkspaceIndex, faults: &mut Vec<Fault>) -> (pairs: Vec<Subtype>)
    requires
        index.wf(),
    ensures
        subtype_views(pairs@) == workspace_subtypes(index@, index@.order).found,
        final(faults).deep_view() == old(faults).deep_view() + workspace_subtypes(
            index@,
            index@.order,
        ).faults,
{
    let ghost idx = index@;
    let ghost noted = faults.deep_view();
    let mut pairs: Vec<Subtype> = Vec::new();
    let mut m: usize = 0;
    assert(subtype_views(pairs@) =~= workspace_subtypes(idx, idx.order.take(0)).found);
    assert(noted =~= noted + workspace_subtypes(idx, idx.order.take(0)).faults);
    while m < index.modules_by_name.len()
        invariant
            m <= idx.order.len(),
            index.wf(),
            idx == index@,
            subtype_views(pairs@) == workspace_subtypes(idx, idx.order.take(m as int)).found,
            faults.deep_view() == noted + workspace_subtypes(idx, idx.order.take(m as int)).faults,
        decreases idx.order.len() - m,
    {
        let name = index.modules_by_name.key_at(m);
        let info = index.modules_by_name.value_at(m);
        let ghost module = info.deep_view();
        assert(module == idx.workspace[name@]);
        let ghost all = info.classes.deep_view();
        let ghost before = workspace_subtypes(idx, idx.order.take(m as int));
        assert(idx.order.take(m as int + 1).drop_last() =~= idx.order.take(m as int));
        let mut c: usize = 0;
        assert(before.found + classes_subtypes(idx, name@, module, all.take(0)).found
            =~= before.found);
        assert(noted + (before.faults + classes_subtypes(idx, name@, module, all.take(0)).faults)
            =~= noted + before.faults);
        while c < info.classes.len()
            invariant
                c <= info.classes@.len(),
                index.wf(),
                info.wf(),
                idx == index@,
                module == info.deep_view(),
                all == info.classes.deep_view(),
                subtype_views(pairs@) == before.found + classes_subtypes(
                    idx,
                    name@,
                    module,
                    all.take(c as int),
                ).found,
                faults.deep_view() == noted + (before.faults + classes_subtypes(
                    idx,
                    name@,
                    module,
                    all.take(c as int),
                ).faults),
            decreases info.classes@.len() - c,
        {
            let ghost now = classes_subtypes(idx, name@, module, all.take(c as int));
            let ghost here = class_subtypes(idx, name@, module, all[c as int]);
            assert(all.take(c as int + 1).drop_last() =~= all.take(c as int));
            assert(all[c as int] == info.classes@[c as int].deep_view());
            collect_class_subtypes(index, name, info, &info.classes[c], &mut pairs, faults);
            assert(before.found + (now.found + here.found) =~= (before.found + now.found)
                + here.found);
            assert(noted + (before.faults + (now.faults + here.faults)) =~= noted + (before.faults
                + now.faults) + here.faults);
            c = c + 1;
        }
        assert(all.take(c as int) =~= all);
        m = m + 1;
    }
    assert(idx.order.take(m as int) =~= idx.order);
    pairs
}

/// What orders children.
fn key_of_child(child: &(String, String)) -> (key: Vec<u64>)
    ensures
        key@ == child_key(child.deep_view()),
{
    let mut key = key_of_text(child.0.as_str());
    key.push(0);
    let mut rest = key_of_text(child.1.as_str());
    key.append(&mut rest);
    key
}

/// A copy of children.
fn copy_children(list: &Vec<(String, String)>) -> (copy: Vec<(String, String)>)
    ensures
        copy.deep_view() == list.deep_view(),
{
    let mut copy: Vec<(String, String)> = Vec::new();
    let mut i: usize = 0;
    while i < list.len()
        invariant
            i <= list@.len(),
            copy@.len() == i,
            forall|k: int| 0 <= k < i ==> (#[trigger] copy@[k]).deep_view() == list@[k].deep_view(),
        decreases list@.len() - i,
    {
        copy.push((list[i].0.clone(), list[i].1.clone()));
        i = i + 1;
    }
    assert(copy.deep_view() =~= list.deep_view());
    copy
}

/// Children in order.
fn sort_children(list: Vec<(String, String)>) -> (ordered: Vec<(String, String)>)
    ensures
        ordered.deep_view() == sorting::sorted(
            list.deep_view(),
            |child: (Text, Text)| child_key(child),
        ),
{
    let mut keys: Vec<Vec<u64>> = Vec::new();
    let mut i: usize = 0;
    while i < list.len()
        invariant
            i <= list@.len(),
            keys@.len() == i,
            forall|k: int| 0 <= k < i ==> (#[trigger] keys@[k])@ == child_key(list@[k].deep_view()),
        decreases list@.len() - i,
    {
        keys.push(key_of_child(&list[i]));
        i = i + 1;
    }
    sort_keyed(list, keys, Ghost(|child: (Text, Text)| child_key(child)))
}

proof fn lemma_is_base_step(pairs: Seq<SubtypeView>, base: Text)
    requires
        pairs.len() > 0,
    ensures
        is_base(pairs, base) <==> is_base(pairs.drop_last(), base) || pairs.last().base == base,
{
    let shorter = pairs.drop_last();
    if is_base(pairs, base) {
        let i = choose|i: int| 0 <= i < pairs.len() && (#[trigger] pairs[i]).base == base;
        if i < shorter.len() {
            assert(shorter[i].base == base);
        }
    }
    if is_base(shorter, base) {
        let i = choose|i: int| 0 <= i < shorter.len() && (#[trigger] shorter[i]).base == base;
        assert(pairs[i].base == base);
    }
    if pairs.last().base == base {
        assert(pairs[pairs.len() - 1].base == base);
    }
}

/// The children of each base, in the order found.
fn group_children(pairs: &Vec<Subtype>) -> (table: NameMap<Vec<(String, String)>>)
    ensures
        table.wf(),
        forall|base: Text| #[trigger]
            table.entries().contains_key(base) <==> is_base(subtype_views(pairs@), base),
        forall|base: Text| #[trigger]
            table.entries().contains_key(base) ==> table.entries()[base].deep_view() == children(
                subtype_views(pairs@),
                base,
            ),
{
    let ghost all = subtype_views(pairs@);
    let mut table: NameMap<Vec<(String, String)>> = NameMap::new();
    let mut i: usize = 0;
    assert(forall|base: Text| !is_base(all.take(0), base));
    while i < pairs.len()
        invariant
            i <= pairs@.len(),
            all == subtype_views(pairs@),
            table.wf(),
            forall|base: Text| #[trigger]
                table.entries().contains_key(base) <==> is_base(all.take(i as int), base),
            forall|base: Text| #[trigger]
                table.entries().contains_key(base) ==> table.entries()[base].deep_view()
                    == children(all.take(i as int), base),
        decreases pairs@.len() - i,
    {
        let ghost now = all.take(i as int);
        let ghost next = all.take(i as int + 1);
        let ghost before = table.entries();
        assert(next.drop_last() =~= now);
        assert(next.last() == subtype_view(pairs@[i as int]));
        let child = (pairs[i].child.0.clone(), pairs[i].child.1.clone());
        let ghost viewed = child.deep_view();
        let base = pairs[i].base.clone();
        let ghost key = base@;
        proof {
            assert(before.contains_key(key) <==> is_base(now, key));
            if !is_base(now, key) {
                lemma_no_children(now, key);
            }
        }
        match table.position(base.as_str()) {
            Some(place) => {
                let entry = table.value_at_mut(place);
                let ghost list = entry.deep_view();
                entry.push(child);
                assert(entry.deep_view() =~= list.push(viewed));
            },
            None => {
                let mut entry: Vec<(String, String)> = Vec::new();
                entry.push(child);
                assert(entry.deep_view() =~= Seq::empty().push(viewed));
                table.insert(base, entry);
            },
        }
        assert forall|b: Text| #[trigger] table.entries().contains_key(b) <==> is_base(next, b) by {
            lemma_is_base_step(next, b);
            assert(before.contains_key(b) <==> is_base(now, b));
        }
        assert forall|b: Text| #[trigger] table.entries().contains_key(b) implies table.entries()[b].deep_view()
            == children(next, b) by {
            if b != key {
                assert(before.contains_key(b));
            }
        }
        i = i + 1;
    }
    assert(all.take(i as int) =~= all);
    table
}

proof fn lemma_no_children(pairs: Seq<SubtypeView>, base: Text)
    requires
        !is_base(pairs, base),
    ensures
        children(pairs, base) == Seq::<(Text, Text)>::empty(),
    decreases pairs.len(),
{
    if pairs.len() > 0 {
        lemma_is_base_step(pairs, base);
        lemma_no_children(pairs.drop_last(), base);
    }
}

/// Who inherits from whom, by the keys of the bases; faults are noted.
pub fn build_direct_subtype_index(index: &WorkspaceIndex, faults: &mut Vec<Fault>) -> (table: NameMap<Vec<(String, String)>>)
    requires
        index.wf(),
    ensures
        table.wf(),
        table.deep_entries() == subtype_table(workspace_subtypes(index@, index@.order).found),
        final(faults).deep_view() == old(faults).deep_view() + workspace_subtypes(
            index@,
            index@.order,
        ).faults,
{
    let pairs = collect_subtypes(index, faults);
    let ghost all = subtype_views(pairs@);
    let ghost goal = subtype_table(all);
    let grouped = group_children(&pairs);
    let mut table: NameMap<Vec<(String, String)>> = NameMap::new();
    let mut i: usize = 0;
    while i < grouped.len()
        invariant
            i <= grouped.order().len(),
            grouped.wf(),
            table.wf(),
            goal == subtype_table(all),
            forall|base: Text| #[trigger]
                grouped.entries().contains_key(base) <==> is_base(all, base),
            forall|base: Text| #[trigger]
                grouped.entries().contains_key(base) ==> grouped.entries()[base].deep_view()
                    == children(all, base),
            table.entries().dom() == grouped.order().take(i as int).to_set(),
            forall|base: Text| #[trigger]
                table.entries().contains_key(base) ==> table.entries()[base].deep_view()
                    == goal[base],
        decreases grouped.order().len() - i,
    {
        let base = grouped.key_at(i);
        let list = copy_children(grouped.value_at(i));
        let ghost before = table.entries();
        table.insert(base.clone(), sort_children(list));
        assert(table.entries()[base@].deep_view() == goal[base@]);
        assert(grouped.order().take(i as int + 1) =~= grouped.order().take(i as int).push(base@));
        assert forall|b: Text|
            table.entries().dom().contains(b) <==> grouped.order().take(
                i as int + 1,
            ).to_set().contains(b) by {
            vstd::seq_lib::lemma_seq_contains_after_push(grouped.order().take(i as int), base@, b);
            assert(before.dom().contains(b) <==> grouped.order().take(i as int).contains(b));
        }
        assert(table.entries().dom() =~= grouped.order().take(i as int + 1).to_set());
        i = i + 1;
    }
    proof {
        grouped.lemma_order();
        assert(grouped.order().take(i as int) =~= grouped.order());
        assert forall|base: Text|
            table.deep_entries().contains_key(base) <==> goal.contains_key(base) by {
            assert(grouped.entries().contains_key(base) <==> is_base(all, base));
        }
        assert(table.deep_entries() =~= goal);
    }
    table
}

/// A call from one function to another.
struct Link {
    caller: ResolvedCallable,
    target: ResolvedCallable,
    range: SourceRange,
}

spec fn link_view(link: Link) -> LinkView {
    LinkView {
        caller: link.caller.deep_view(),
        target: link.target.deep_view(),
        range: link.range,
    }
}

spec fn link_views(links: Seq<Link>) -> Seq<LinkView> {
    links.map_values(|link: Link| link_view(link))
}

/// Adds the links that the calls of a function make; faults are noted.
fn collect_call_links(index: &WorkspaceIndex, info: &ModuleInfo, function: &FunctionInfo, links: &mut Vec<Link>, faults: &mut Vec<Fault>)
    requires
        index.wf(),
        info.wf(),
    ensures
        link_views(final(links)@) == link_views(old(links)@) + call_links(
            index@,
            info.deep_view(),
            function.deep_view(),
            caller_of(info.deep_view(), function.deep_view()),
            function.deep_view().calls,
        ).found,
        final(faults).deep_view() == old(faults).deep_view() + call_links(
            index@,
            info.deep_view(),
            function.deep_view(),
            caller_of(info.deep_view(), function.deep_view()),
            function.deep_view().calls,
        ).faults,
{
    let ghost idx = index@;
    let ghost module = info.deep_view();
    let ghost viewed = function.deep_view();
    let ghost caller = caller_of(module, viewed);
    let ghost all = function.calls.deep_view();
    let ghost before = link_views(links@);
    let ghost noted = faults.deep_view();
    let mut i: usize = 0;
    assert(before =~= before + call_links(idx, module, viewed, caller, all.take(0)).found);
    assert(noted =~= noted + call_links(idx, module, viewed, caller, all.take(0)).faults);
    while i < function.calls.len()
        invariant
            i <= function.calls@.len(),
            index.wf(),
            info.wf(),
            idx == index@,
            module == info.deep_view(),
            viewed == function.deep_view(),
            caller == caller_of(module, viewed),
            all == function.calls.deep_view(),
            link_views(links@) == before + call_links(
                idx,
                module,
                viewed,
                caller,
                all.take(i as int),
            ).found,
            faults.deep_view() == noted + call_links(
                idx,
                module,
                viewed,
                caller,
                all.take(i as int),
            ).faults,
        decreases function.calls@.len() - i,
    {
        let ghost now = call_links(idx, module, viewed, caller, all.take(i as int));
        assert(all.take(i as int + 1).drop_last() =~= all.take(i as int));
        assert(all.take(i as int + 1).last() == function.calls@[i as int].deep_view());
        let call = &function.calls[i];
        match resolve_callable(index, info, function, call.raw_target.as_str()) {
            Err(fault) => {
                let ghost reason = fault.deep_view();
                note(faults, fault);
                assert(faults.deep_view() =~= noted + now.faults.push(reason));
            },
            Ok(Some(target)) => {
                let link = Link {
                    caller: ResolvedCallable {
                        key: callable_key(info.module_name.as_str(), function),
                        item: call_item_from_function(info, function, false),
                    },
                    target,
                    range: call.range,
                };
                let ghost made = link_view(link);
                let ghost held = link_views(links@);
                links.push(link);
                assert(link_views(links@) =~= held.push(made));
                assert(before + now.found.push(made) =~= (before + now.found).push(made));
            },
            Ok(None) => {},
        }
        i = i + 1;
    }
    assert(all.take(i as int) =~= all);
}

/// The links that workspace modules make; faults are noted.
fn collect_links(index: &WorkspaceIndex, faults: &mut Vec<Fault>) -> (links: Vec<Link>)
    requires
        index.wf(),
    ensures
        link_views(links@) == workspace_links(index@, index@.order).found,
        final(faults).deep_view() == old(faults).deep_view() + workspace_links(
            index@,
            index@.order,
        ).faults,
{
    let ghost idx = index@;
    let ghost noted = faults.deep_view();
    let mut links: Vec<Link> = Vec::new();
    let mut m: usize = 0;
    assert(link_views(links@) =~= workspace_links(idx, idx.order.take(0)).found);
    assert(noted =~= noted + workspace_links(idx, idx.order.take(0)).faults);
    while m < index.modules_by_name.len()
        invariant
            m <= idx.order.len(),
            index.wf(),
            idx == index@,
            link_views(links@) == workspace_links(idx, idx.order.take(m as int)).found,
            faults.deep_view() == noted + workspace_links(idx, idx.order.take(m as int)).faults,
        decreases idx.order.len() - m,
    {
        let info = index.modules_by_name.value_at(m);
        let ghost module = info.deep_view();
        assert(module == idx.workspace[idx.order[m as int]]);
        let ghost all = info.functions.deep_view();
        let ghost before = workspace_links(idx, idx.order.take(m as int));
        assert(idx.order.take(m as int + 1).drop_last() =~= idx.order.take(m as int));
        let mut f: usize = 0;
        assert(before.found + function_links(idx, module, all.take(0)).found =~= before.found);
        assert(noted + (before.faults + function_links(idx, module, all.take(0)).faults) =~= noted
            + before.faults);
        while f < info.functions.len()
            invariant
                f <= info.functions@.len(),
                index.wf(),
                info.wf(),
                idx == index@,
                module == info.deep_view(),
                all == info.functions.deep_view(),
                link_views(links@) == before.found + function_links(
                    idx,
                    module,
                    all.take(f as int),
                ).found,
                faults.deep_view() == noted + (before.faults + function_links(
                    idx,
                    module,
                    all.take(f as int),
                ).faults),
            decreases info.functions@.len() - f,
        {
            let ghost now = function_links(idx, module, all.take(f as int));
            let ghost function = all[f as int];
            let ghost here = call_links(
                idx,
                module,
                function,
                caller_of(module, function),
                function.calls,
            );
            assert(all.take(f as int + 1).drop_last() =~= all.take(f as int));
            assert(all[f as int] == info.functions@[f as int].deep_view());
            collect_call_links(index, info, &info.functions[f], &mut links, faults);
            assert(before.found + (now.found + here.found) =~= (before.found + now.found)
                + here.found);
            assert(noted + (before.faults + (now.faults + here.faults)) =~= noted + (before.faults
                + now.faults) + here.faults);
            f = f + 1;
        }
        assert(all.take(f as int) =~= all);
        m = m + 1;
    }
    assert(idx.order.take(m as int) =~= idx.order);
    links
}

/// The place of the edge to a key.
fn find_edge(edges: &Vec<(String, CallHierarchyEdge)>, key: &String) -> (place: Option<usize>)
    ensures
        match place {
            Some(i) => i < edges@.len() && edge_slot(edges.deep_view(), key@) == Some(i as int),
            None => edge_slot(edges.deep_view(), key@) is None,
        },
{
    let ghost all = edges.deep_view();
    let mut i: usize = edges.len();
    assert(all.take(i as int) =~= all);
    while i > 0
        invariant
            i <= edges@.len(),
            all == edges.deep_view(),
            edge_slot(all.take(i as int), key@) == edge_slot(all, key@),
        decreases i,
    {
        assert(all.take(i as int).last() == edges@[i - 1].deep_view());
        assert(all.take(i as int).drop_last() =~= all.take(i - 1));
        if edges[i - 1].0 == *key {
            return Some(i - 1);
        }
        i = i - 1;
    }
    None
}

/// Adds a call to edges.
fn add_call(edges: &mut Vec<(String, CallHierarchyEdge)>, end: &ResolvedCallable, range: SourceRange)
    ensures
        final(edges).deep_view() == with_call(old(edges).deep_view(), end.deep_view(), range),
{
    let ghost before = edges.deep_view();
    match find_edge(edges, &end.key) {
        Some(i) => {
            let ghost ranges = before[i as int].1.from_ranges;
            edges[i].1.from_ranges.push(range);
            assert(edges@[i as int].1.from_ranges.deep_view() =~= ranges.push(range));
            assert(edges.deep_view() =~= with_call(before, end.deep_view(), range));
        },
        None => {
            let mut from_ranges: Vec<SourceRange> = Vec::new();
            from_ranges.push(range);
            assert(from_ranges.deep_view() =~= seq![range]);
            edges.push(
                (end.key.clone(), CallHierarchyEdge { item: end.item.clone(), from_ranges }),
            );
            assert(edges.deep_view() =~= with_call(before, end.deep_view(), range));
        },
    }
}

proof fn lemma_has_edge_step(links: Seq<LinkView>, key: Text, incoming: bool)
    requires
        links.len() > 0,
    ensures
        has_edge(links, key, incoming) <==> has_edge(links.drop_last(), key, incoming) || near(
            links.last(),
            incoming,
        ).key == key,
{
    let shorter = links.drop_last();
    if has_edge(links, key, incoming) {
        let i = choose|i: int| 0 <= i < links.len() && near(#[trigger] links[i], incoming).key == key;
        if i < shorter.len() {
            assert(near(shorter[i], incoming).key == key);
        }
    }
    if has_edge(shorter, key, incoming) {
        let i = choose|i: int|
            0 <= i < shorter.len() && near(#[trigger] shorter[i], incoming).key == key;
        assert(near(links[i], incoming).key == key);
    }
    if near(links.last(), incoming).key == key {
        assert(near(links[links.len() - 1], incoming).key == key);
    }
}

/// The edges of each function that has some.
fn group_edges(links: &Vec<Link>, incoming: bool) -> (table: NameMap<Vec<(String, CallHierarchyEdge)>>)
    ensures
        table.wf(),
        table.deep_entries() == edge_table(link_views(links@), incoming),
{
    let ghost all = link_views(links@);
    let mut table: NameMap<Vec<(String, CallHierarchyEdge)>> = NameMap::new();
    let mut i: usize = 0;
    assert(forall|key: Text| !has_edge(all.take(0), key, incoming));
    while i < links.len()
        invariant
            i <= links@.len(),
            all == link_views(links@),
            table.wf(),
            forall|key: Text| #[trigger]
                table.entries().contains_key(key) <==> has_edge(all.take(i as int), key, incoming),
            forall|key: Text| #[trigger]
                table.entries().contains_key(key) ==> table.entries()[key].deep_view() == edges_of(
                    all.take(i as int),
                    key,
                    incoming,
                ),
        decreases links@.len() - i,
    {
        let ghost now = all.take(i as int);
        let ghost next = all.take(i as int + 1);
        let ghost before = table.entries();
        assert(next.drop_last() =~= now);
        assert(next.last() == link_view(links@[i as int]));
        let link = &links[i];
        let near_end = if incoming { &link.target } else { &link.caller };
        let far_end = if incoming { &link.caller } else { &link.target };
        let ghost key = near_end.key@;
        proof {
            assert(before.contains_key(key) <==> has_edge(now, key, incoming));
            if !has_edge(now, key, incoming) {
                lemma_no_edge(now, key, incoming);
            }
        }
        match table.position(near_end.key.as_str()) {
            Some(place) => {
                let entry = table.value_at_mut(place);
                add_call(entry, far_end, link.range);
            },
            None => {
                let mut entry: Vec<(String, CallHierarchyEdge)> = Vec::new();
                assert(entry.deep_view() =~= Seq::empty());
                add_call(&mut entry, far_end, link.range);
                table.insert(near_end.key.clone(), entry);
            },
        }
        assert forall|k: Text| #[trigger] table.entries().contains_key(k) <==> has_edge(
            next,
            k,
            incoming,
        ) by {
            lemma_has_edge_step(next, k, incoming);
            assert(before.contains_key(k) <==> has_edge(now, k, incoming));
        }
        assert forall|k: Text| #[trigger] table.entries().contains_key(k) implies table.entries()[k].deep_view()
            == edges_of(next, k, incoming) by {
            if k != key {
                assert(before.contains_key(k));
            }
        }
        i = i + 1;
    }
    assert(all.take(i as int) =~= all);
    assert(table.deep_entries().dom() =~= table.entries().dom());
    assert forall|key: Text|
        table.deep_entries().contains_key(key) <==> edge_table(all, incoming).contains_key(key) by {
        assert(table.entries().contains_key(key) <==> has_edge(all, key, incoming));
    }
    assert(table.deep_entries() =~= edge_table(all, incoming));
    table
}

/// Who calls whom: the outgoing and the incoming edges of each function; faults are noted.
pub fn build_call_indices(index: &WorkspaceIndex, faults: &mut Vec<Fault>) -> (tables: (
    NameMap<Vec<(String, CallHierarchyEdge)>>,
    NameMap<Vec<(String, CallHierarchyEdge)>>,
))
    requires
        index.wf(),
    ensures
        tables.0.wf(),
        tables.1.wf(),
        tables.0.deep_entries() == edge_table(workspace_links(index@, index@.order).found, false),
        tables.1.deep_entries() == edge_table(workspace_links(index@, index@.order).found, true),
        final(faults).deep_view() == old(faults).deep_view() + workspace_links(
            index@,
            index@.order,
        ).faults,
{
    let links = collect_links(index, faults);
    (group_edges(&links, false), group_edges(&links, true))
}

/// Derives who inherits from whom and who calls whom. Where names could not be followed, the
/// index stays as it was, and every reason comes back: modules that are still to be looked for,
/// and cycles.
pub fn link_workspace(index: &mut WorkspaceIndex) -> (done: Result<(), Vec<Fault>>)
    requires
        old(index).wf(),
    ensures
        final(index).wf(),
        match done {
            Ok(_) => link_faults(old(index)@).len() == 0 && final(index)@ == linked(old(index)@),
            Err(faults) => link_faults(old(index)@).len() > 0 && faults.deep_view() == link_faults(
                old(index)@,
            ) && final(index)@ == old(index)@,
        },
{
    let mut faults: Vec<Fault> = Vec::new();
    let direct_subtypes = build_direct_subtype_index(index, &mut faults);
    let (outgoing_calls, incoming_calls) = build_call_indices(index, &mut faults);
    assert(faults.deep_view() =~= link_faults(index@));
    if faults.len() > 0 {
        return Err(faults);
    }
    index.direct_subtypes = direct_subtypes;
    index.outgoing_calls = outgoing_calls;
    index.incoming_calls = incoming_calls;
    Ok(())
}

} // verus!
