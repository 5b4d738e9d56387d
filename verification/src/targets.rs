//! What a question is about: the module in a file, one of its classes, one of its functions.
use vstd::prelude::*;

use crate::errors::FaultView;
use crate::errors::QueryError;
use crate::errors::QueryErrorView;
use crate::index::IndexView;
use crate::index::Lookup;
use crate::index::WorkspaceIndex;
use crate::model::ClassInfo;
use crate::model::ClassView;
use crate::model::FunctionInfo;
use crate::model::FunctionView;
use crate::model::ModuleInfo;
use crate::model::ModuleView;
use crate::text::Text;

verus! {

/// A module: its name, what it is, and whether it lies outside the workspace.
pub struct OpenedView {
    pub name: Text,
    pub info: ModuleView,
    pub external: bool,
}

/// The module of a name.
pub open spec fn opened(idx: IndexView, name: Text) -> Result<OpenedView, QueryErrorView> {
    match idx.lookup(name) {
        Lookup::Unknown => Err(QueryErrorView::Unfollowed(FaultView::NeedsModule(name))),
        Lookup::Absent => Err(QueryErrorView::ModuleNotIndexed { module: name }),
        Lookup::Known { module, external } => Ok(OpenedView { name, info: module, external }),
    }
}

/// The module in a file.
pub open spec fn module_in(idx: IndexView, file: Text, canonical: Option<Text>) -> Result<OpenedView, QueryErrorView> {
    match idx.resolve_module_name(file, canonical) {
        Err(error) => Err(error),
        Ok(name) => opened(idx, name),
    }
}

/// The class of this name in a module; its first class where no name is given.
pub open spec fn class_target(module: OpenedView, class_name: Text) -> Result<ClassView, QueryErrorView> {
    if class_name.len() == 0 {
        if module.info.classes.len() == 0 {
            Err(QueryErrorView::NoClasses)
        } else {
            Ok(module.info.classes[0])
        }
    } else {
        match module.info.class_named(class_name) {
            Some(class) => Ok(class),
            None => Err(QueryErrorView::ClassMissing { module: module.name, class_name }),
        }
    }
}

/// The first function at a position.
pub open spec fn function_at(functions: Seq<FunctionView>, line: usize, col: usize) -> Option<int>
    decreases functions.len(),
{
    if functions.len() == 0 {
        None
    } else {
        match function_at(functions.drop_last(), line, col) {
            Some(i) => Some(i),
            None => if functions.last().line == line && functions.last().col == col {
                Some(functions.len() - 1)
            } else {
                None
            },
        }
    }
}

/// The first function of a name.
pub open spec fn function_named(functions: Seq<FunctionView>, name: Text) -> Option<int>
    decreases functions.len(),
{
    if functions.len() == 0 {
        None
    } else {
        match function_named(functions.drop_last(), name) {
            Some(i) => Some(i),
            None => if functions.last().name == name {
                Some(functions.len() - 1)
            } else {
                None
            },
        }
    }
}

/// The function at a position, else the first one of a name.
pub open spec fn function_place(functions: Seq<FunctionView>, name: Text, line: Option<usize>, col: Option<usize>) -> Option<int> {
    match (line, col) {
        (Some(l), Some(c)) => match function_at(functions, l, c) {
            Some(i) => Some(i),
            None => function_named(functions, name),
        },
        _ => function_named(functions, name),
    }
}

/// The function that a question is about.
pub open spec fn function_target(module: OpenedView, name: Text, line: Option<usize>, col: Option<usize>) -> Result<FunctionView, QueryErrorView> {
    match function_place(module.info.functions, name, line, col) {
        Some(i) => Ok(module.info.functions[i]),
        None => Err(QueryErrorView::FunctionNotFound { symbol_name: name, module: module.name }),
    }
}

/// The place of a function is one.
pub proof fn lemma_function_place(functions: Seq<FunctionView>, name: Text, line: Option<usize>, col: Option<usize>)
    ensures
        function_place(functions, name, line, col) matches Some(i) ==> 0 <= i < functions.len(),
{
    if let (Some(l), Some(c)) = (line, col) {
        lemma_function_at(functions, l, c);
    }
    lemma_function_named(functions, name);
}

/// The first function at a position is at that position, and none before it is.
pub proof fn lemma_function_at(functions: Seq<FunctionView>, line: usize, col: usize)
    ensures
        function_at(functions, line, col) matches Some(i) ==> 0 <= i < functions.len()
            && functions[i].line == line && functions[i].col == col,
        forall|k: int|
            0 <= k < functions.len() && (#[trigger] functions[k]).line == line && functions[k].col
                == col ==> function_at(functions, line, col) is Some && function_at(
                functions,
                line,
                col,
            )->0 <= k,
    decreases functions.len(),
{
    if functions.len() > 0 {
        lemma_function_at(functions.drop_last(), line, col);
        assert forall|k: int|
            0 <= k < functions.len() && (#[trigger] functions[k]).line == line && functions[k].col
                == col implies function_at(functions, line, col) is Some && function_at(
            functions,
            line,
            col,
        )->0 <= k by {
            if k < functions.len() - 1 {
                assert(functions.drop_last()[k] == functions[k]);
            }
        }
    }
}

/// The first function of a name has that name, and none before it has.
pub proof fn lemma_function_named(functions: Seq<FunctionView>, name: Text)
    ensures
        function_named(functions, name) matches Some(i) ==> 0 <= i < functions.len()
            && functions[i].name == name,
        forall|k: int|
            0 <= k < functions.len() && (#[trigger] functions[k]).name == name ==> function_named(
                functions,
                name,
            ) is Some && function_named(functions, name)->0 <= k,
    decreases functions.len(),
{
    if functions.len() > 0 {
        lemma_function_named(functions.drop_last(), name);
        assert forall|k: int|
            0 <= k < functions.len() && (#[trigger] functions[k]).name == name implies function_named(
            functions,
            name,
        ) is Some && function_named(functions, name)->0 <= k by {
            if k < functions.len() - 1 {
                assert(functions.drop_last()[k] == functions[k]);
            }
        }
    }
}

/// A module: its name, what is known of it, and whether it lies outside the workspace.
pub struct Opened<'a> {
    pub name: String,
    pub info: &'a ModuleInfo,
    pub external: bool,
}

impl<'a> DeepView for Opened<'a> {
    type V = OpenedView;

    open spec fn deep_view(&self) -> OpenedView {
        OpenedView { name: self.name@, info: self.info.deep_view(), external: self.external }
    }
}

/// The module of a name.
pub fn open_module<'a>(index: &'a WorkspaceIndex, name: String) -> (module: Result<Opened<'a>, QueryError>)
    requires
        index.wf(),
    ensures
        match module {
            Ok(module) => module.info.wf() && opened(index@, name@) == Ok::<
                OpenedView,
                QueryErrorView,
            >(module.deep_view()),
            Err(error) => opened(index@, name@) == Err::<OpenedView, QueryErrorView>(
                error.deep_view(),
            ),
        },
{
    match index.get_module(name.as_str()) {
        Err(fault) => Err(QueryError::Unfollowed(fault)),
        Ok(None) => Err(QueryError::ModuleNotIndexed { module: name }),
        Ok(Some((info, external))) => Ok(Opened { name, info, external }),
    }
}

/// The module in a file.
pub fn open_file<'a>(index: &'a WorkspaceIndex, file: &str, canonical: &Option<String>) -> (module: Result<Opened<'a>, QueryError>)
    requires
        index.wf(),
    ensures
        match module {
            Ok(module) => module.info.wf() && module_in(index@, file@, canonical.deep_view()) == Ok::<
                OpenedView,
                QueryErrorView,
            >(module.deep_view()),
            Err(error) => module_in(index@, file@, canonical.deep_view()) == Err::<
                OpenedView,
                QueryErrorView,
            >(error.deep_view()),
        },
{
    match index.resolve_module_name(file, canonical) {
        Err(error) => Err(error),
        Ok(name) => open_module(index, name),
    }
}

/// The class of this name in a module; its first class where no name is given.
pub fn locate_class_target<'a>(module: &Opened<'a>, class_name: &str) -> (class: Result<&'a ClassInfo, QueryError>)
    requires
        module.info.wf(),
    ensures
        match class {
            Ok(class) => class_target(module.deep_view(), class_name@) == Ok::<
                ClassView,
                QueryErrorView,
            >(class.deep_view()),
            Err(error) => class_target(module.deep_view(), class_name@) == Err::<
                ClassView,
                QueryErrorView,
            >(error.deep_view()),
        },
{
    if class_name.is_empty() {
        assert(module.deep_view().info.classes.len() == module.info.classes@.len());
        if module.info.classes.len() == 0 {
            Err(QueryError::NoClasses)
        } else {
            Ok(&module.info.classes[0])
        }
    } else {
        match module.info.class_named(class_name) {
            Some(class) => Ok(class),
            None => Err(
                QueryError::ClassMissing {
                    module: module.name.clone(),
                    class_name: class_name.to_owned(),
                },
            ),
        }
    }
}

/// The place of the function at a position, else of the first one of a name.
fn find_function_place(functions: &Vec<FunctionInfo>, name: &str, line: Option<usize>, col: Option<usize>) -> (place: Option<usize>)
    ensures
        match place {
            Some(i) => i < functions@.len() && function_place(functions.deep_view(), name@, line, col)
                == Some(i as int),
            None => function_place(functions.deep_view(), name@, line, col) is None,
        },
{
    let ghost all = functions.deep_view();
    if let (Some(l), Some(c)) = (line, col) {
        let mut i: usize = 0;
        proof {
            lemma_function_at(all, l, c);
        }
        while i < functions.len()
            invariant
                i <= functions@.len(),
                all == functions.deep_view(),
                line == Some(l),
                col == Some(c),
                function_at(all, l, c) matches Some(slot) ==> i <= slot < all.len()
                    && all[slot].line == l && all[slot].col == c,
                forall|k: int|
                    0 <= k < all.len() && (#[trigger] all[k]).line == l && all[k].col == c
                        ==> function_at(all, l, c) is Some && function_at(all, l, c)->0 <= k,
            decreases functions@.len() - i,
        {
            assert(all[i as int] == functions@[i as int].deep_view());
            if functions[i].line == l && functions[i].col == c {
                return Some(i);
            }
            i = i + 1;
        }
    }
    let mut i: usize = 0;
    proof {
        lemma_function_named(all, name@);
    }
    while i < functions.len()
        invariant
            i <= functions@.len(),
            all == functions.deep_view(),
            function_place(all, name@, line, col) == function_named(all, name@),
            function_named(all, name@) matches Some(slot) ==> i <= slot < all.len()
                && all[slot].name == name@,
            forall|k: int|
                0 <= k < all.len() && (#[trigger] all[k]).name == name@ ==> function_named(all, name@)
                    is Some && function_named(all, name@)->0 <= k,
        decreases functions@.len() - i,
    {
        assert(all[i as int] == functions@[i as int].deep_view());
        if crate::text::same(functions[i].name.as_str(), name) {
            return Some(i);
        }
        i = i + 1;
    }
    None
}

/// The function that a question is about: the one at a position, else the first one of a name.
pub fn locate_function_target<'a>(module: &Opened<'a>, symbol_name: &str, line: Option<usize>, col: Option<usize>) -> (function: Result<&'a FunctionInfo, QueryError>)
    ensures
        match function {
            Ok(function) => function_target(module.deep_view(), symbol_name@, line, col) == Ok::<
                FunctionView,
                QueryErrorView,
            >(function.deep_view()),
            Err(error) => function_target(module.deep_view(), symbol_name@, line, col) == Err::<
                FunctionView,
                QueryErrorView,
            >(error.deep_view()),
        },
{
    match find_function_place(&module.info.functions, symbol_name, line, col) {
        Some(i) => Ok(&module.info.functions[i]),
        None => Err(
            QueryError::FunctionNotFound {
                symbol_name: symbol_name.to_owned(),
                module: module.name.clone(),
            },
        ),
    }
}

} // verus!
