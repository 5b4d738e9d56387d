//! Type hierarchies and call hierarchies of Python workspaces.
//!
//! A source is cut into tokens (`tokens`), the tokens into statements, and the statements are read
//! for imports, classes, fields, functions and calls (`grammar`, `statements`, `parser`). The
//! modules stand in an index (`index`, `workspace`), which says what the names in them stand for
//! (`resolve`, `callables`) and which classes and functions are related (`relations`). Queries
//! (`queries`) walk these relations (`hierarchy`, `render`, `calltree`), and requests are turned
//! into queries and answers (`serve`).
//!
//! The library reads no files. Where an answer depends on a module that has not been looked for,
//! the query says which one: find the module among `workspace::module_search_paths`, hand it to the
//! index or note that it is absent, and ask again.
pub mod ancestry;
pub mod annotations;
pub mod answering;
pub mod args;
pub mod callables;
pub mod callgraph;
pub mod calling;
pub mod calltree;
pub mod coherence;
pub mod declaring;
pub mod errors;
pub mod following;
pub mod grammar;
pub mod hierarchy;
pub mod index;
pub mod lines;
pub mod linking;
pub mod model;
pub mod names;
pub mod numbers;
pub mod parser;
pub mod paths;
pub mod queries;
pub mod reading;
pub mod relations;
pub mod render;
pub mod requests;
pub mod resolve;
pub mod searching;
pub mod serve;
pub mod shape;
pub mod showing;
pub mod sorting;
pub mod stability;
pub mod statements;
pub mod succeeding;
pub mod targets;
pub mod text;
pub mod tokens;
pub mod tracing;
pub mod typeshed;
pub mod workspace;

pub use hierarchy::HierarchyNode;
pub use index::evict_module_file;
pub use index::refresh_import_roots;
pub use index::WorkspaceIndex;
pub use model::CallHierarchyEdge;
pub use model::CallHierarchyItem;
pub use model::ClassMembersResult;
pub use model::FieldInfo;
pub use model::HierarchyItem;
pub use model::MethodInfo;
pub use model::RangePoint;
pub use model::ResolvedCallableReference;
pub use model::SourceRange;
pub use queries::query_class_members;
pub use queries::query_incoming_calls;
pub use queries::query_incoming_calls_tree;
pub use queries::query_outgoing_calls;
pub use queries::query_outgoing_calls_tree;
pub use queries::query_resolved_callable_reference;
pub use queries::query_resolved_class_fields;
pub use queries::query_subtypes;
pub use queries::query_subtypes_tree;
pub use queries::query_subtypes_tree_limited;
pub use queries::query_supertypes_tree;
pub use queries::query_type_hierarchy;
pub use queries::QueryResult;
pub use queries::RenderTreeResult;
pub use render::RenderNode;
pub use typeshed::ensure_telepy_typeshed_snapshot;
pub use typeshed::sync_telepy_typeshed_snapshot;
pub use typeshed::TypeshedSnapshot;
pub use workspace::build_lazy_hierarchy_index;
pub use workspace::build_workspace_index;
