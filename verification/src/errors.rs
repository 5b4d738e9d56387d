//! Why a question about an index has no answer.
use vstd::prelude::*;

use crate::text::cat;
use crate::text::cat3;
use crate::text::Text;

verus! {

/// Why a name could not be followed: a module has not been looked for yet, or imports lead back
/// to where they started.
#[derive(Debug)]
pub enum Fault {
    NeedsModule(String),
    ImportCycle,
}

/// What a fault is.
pub enum FaultView {
    NeedsModule(Text),
    ImportCycle,
}

impl DeepView for Fault {
    type V = FaultView;

    open spec fn deep_view(&self) -> FaultView {
        match self {
            Fault::NeedsModule(name) => FaultView::NeedsModule(name@),
            Fault::ImportCycle => FaultView::ImportCycle,
        }
    }
}

/// Whether an answer, or a fault, is the one expected.
pub open spec fn follows<T: DeepView>(answer: Result<T, Fault>, expected: Result<T::V, FaultView>) -> bool {
    match answer {
        Ok(value) => expected == Ok::<T::V, FaultView>(value.deep_view()),
        Err(fault) => expected == Err::<T::V, FaultView>(fault.deep_view()),
    }
}

/// Why a query has no answer.
#[derive(Debug)]
pub enum QueryError {
    Unfollowed(Fault),
    FileNotIndexed { file: String },
    ModuleNotIndexed { module: String },
    ModuleMissing { module: String },
    ClassMissing { module: String, class_name: String },
    NoClasses,
    ClassNotFound { class_name: String, module: String },
    FunctionNotFound { symbol_name: String, module: String },
    UnresolvedType { display: String, file: String },
    NoReference,
}

/// What a query error is.
pub enum QueryErrorView {
    Unfollowed(FaultView),
    FileNotIndexed { file: Text },
    ModuleNotIndexed { module: Text },
    ModuleMissing { module: Text },
    ClassMissing { module: Text, class_name: Text },
    NoClasses,
    ClassNotFound { class_name: Text, module: Text },
    FunctionNotFound { symbol_name: Text, module: Text },
    UnresolvedType { display: Text, file: Text },
    NoReference,
}

impl DeepView for QueryError {
    type V = QueryErrorView;

    open spec fn deep_view(&self) -> QueryErrorView {
        match self {
            QueryError::Unfollowed(fault) => QueryErrorView::Unfollowed(fault.deep_view()),
            QueryError::FileNotIndexed { file } => QueryErrorView::FileNotIndexed { file: file@ },
            QueryError::ModuleNotIndexed { module } => QueryErrorView::ModuleNotIndexed {
                module: module@,
            },
            QueryError::ModuleMissing { module } => QueryErrorView::ModuleMissing {
                module: module@,
            },
            QueryError::ClassMissing { module, class_name } => QueryErrorView::ClassMissing {
                module: module@,
                class_name: class_name@,
            },
            QueryError::NoClasses => QueryErrorView::NoClasses,
            QueryError::ClassNotFound { class_name, module } => QueryErrorView::ClassNotFound {
                class_name: class_name@,
                module: module@,
            },
            QueryError::FunctionNotFound { symbol_name, module } => QueryErrorView::FunctionNotFound {
                symbol_name: symbol_name@,
                module: module@,
            },
            QueryError::UnresolvedType { display, file } => QueryErrorView::UnresolvedType {
                display: display@,
                file: file@,
            },
            QueryError::NoReference => QueryErrorView::NoReference,
        }
    }
}

/// Whether an answer, or an error, is the one expected.
pub open spec fn answers<T: DeepView>(answer: Result<T, QueryError>, expected: Result<T::V, QueryErrorView>) -> bool {
    match answer {
        Ok(value) => expected == Ok::<T::V, QueryErrorView>(value.deep_view()),
        Err(error) => expected == Err::<T::V, QueryErrorView>(error.deep_view()),
    }
}

impl QueryErrorView {
    /// What the error is reported as.
    pub open spec fn message(self) -> Text {
        match self {
            QueryErrorView::Unfollowed(FaultView::NeedsModule(module)) => "module '"@ + module
                + "' has not been loaded"@,
            QueryErrorView::Unfollowed(FaultView::ImportCycle) => "imports form a cycle"@,
            QueryErrorView::FileNotIndexed { file } => "file is not part of the index: "@ + file,
            QueryErrorView::ModuleNotIndexed { module } => "module '"@ + module
                + "' is not part of the index"@,
            QueryErrorView::ModuleMissing { module } => "module '"@ + module
                + "' is not in the index"@,
            QueryErrorView::ClassMissing { module, class_name } => "class '"@ + module + "."@
                + class_name + "' is not in the index"@,
            QueryErrorView::NoClasses => "no classes found in module"@,
            QueryErrorView::ClassNotFound { class_name, module } => "class '"@ + class_name
                + "' not found in module "@ + module,
            QueryErrorView::FunctionNotFound { symbol_name, module } => "function '"@ + symbol_name
                + "' not found in module "@ + module,
            QueryErrorView::UnresolvedType { display, file } => "could not resolve field type '"@
                + display + "' from "@ + file,
            QueryErrorView::NoReference => "no callable reference found at the current cursor position"@,
        }
    }
}

impl QueryError {
    /// What the error is reported as.
    pub fn message(&self) -> (message: String)
        ensures
            message@ == self.deep_view().message(),
    {
        match self {
            QueryError::Unfollowed(Fault::NeedsModule(module)) => cat3(
                "module '",
                module.as_str(),
                "' has not been loaded",
            ),
            QueryError::Unfollowed(Fault::ImportCycle) => "imports form a cycle".to_owned(),
            QueryError::FileNotIndexed { file } => cat(
                "file is not part of the index: ",
                file.as_str(),
            ),
            QueryError::ModuleNotIndexed { module } => cat3(
                "module '",
                module.as_str(),
                "' is not part of the index",
            ),
            QueryError::ModuleMissing { module } => cat3(
                "module '",
                module.as_str(),
                "' is not in the index",
            ),
            QueryError::ClassMissing { module, class_name } => {
                let start = cat3("class '", module.as_str(), ".");
                cat3(start.as_str(), class_name.as_str(), "' is not in the index")
            },
            QueryError::NoClasses => "no classes found in module".to_owned(),
            QueryError::ClassNotFound { class_name, module } => {
                let start = cat3("class '", class_name.as_str(), "' not found in module ");
                cat(start.as_str(), module.as_str())
            },
            QueryError::FunctionNotFound { symbol_name, module } => {
                let start = cat3("function '", symbol_name.as_str(), "' not found in module ");
                cat(start.as_str(), module.as_str())
            },
            QueryError::UnresolvedType { display, file } => {
                let start = cat3("could not resolve field type '", display.as_str(), "' from ");
                cat(start.as_str(), file.as_str())
            },
            QueryError::NoReference => "no callable reference found at the current cursor position".to_owned(),
        }
    }
}

} // verus!
