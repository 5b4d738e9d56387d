use telepy_parser::errors::Fault;
use telepy_parser::errors::QueryError;
use telepy_parser::index::WorkspaceIndex;
use telepy_parser::parser::parse_module;
use telepy_parser::parser::parse_module_with_name;
use telepy_parser::paths::module_name_from_path;
use telepy_parser::paths::order_import_roots;
use telepy_parser::queries::query_class_members;
use telepy_parser::queries::query_incoming_calls;
use telepy_parser::queries::query_incoming_calls_tree;
use telepy_parser::queries::query_outgoing_calls;
use telepy_parser::queries::query_outgoing_calls_tree;
use telepy_parser::queries::query_resolved_callable_reference;
use telepy_parser::queries::query_resolved_class_fields;
use telepy_parser::queries::query_subtypes;
use telepy_parser::queries::query_subtypes_tree;
use telepy_parser::queries::query_subtypes_tree_limited;
use telepy_parser::queries::query_supertypes_tree;
use telepy_parser::queries::query_type_hierarchy;
use telepy_parser::relations::link_workspace;
use telepy_parser::workspace::build_lazy_hierarchy_index;
use telepy_parser::workspace::build_workspace_index;
use telepy_parser::workspace::module_search_paths;

const BUILTINS: (&str, &str) = (
    "/stubs/builtins.pyi",
    "class object:\n    pass\n\nclass int:\n    pass\n\nclass str:\n    pass\n",
);

/// Finds a module among files held in memory, or notes that it is absent.
fn supply(index: &mut WorkspaceIndex, disk: &[(&str, &str)], name: &str) {
    let (inside, outside) = module_search_paths(index, name);
    for path in &inside {
        if let Some((_, source)) = disk.iter().find(|(file, _)| file == path) {
            let module = parse_module_with_name(path, name, source.as_bytes()).unwrap();
            index.add_workspace_module(module);
            return;
        }
    }
    for path in &outside {
        if let Some((_, source)) = disk.iter().find(|(file, _)| file == path) {
            let module = parse_module_with_name(path, name, source.as_bytes()).unwrap();
            index.add_external_module(module);
            return;
        }
    }
    index.mark_absent(name.to_string());
}

/// Asks until no more modules are needed.
fn ask<T>(
    index: &mut WorkspaceIndex,
    disk: &[(&str, &str)],
    question: impl Fn(&WorkspaceIndex) -> Result<T, QueryError>,
) -> Result<T, QueryError> {
    loop {
        match question(index) {
            Err(QueryError::Unfollowed(Fault::NeedsModule(name))) => supply(index, disk, &name),
            answer => return answer,
        }
    }
}

/// The linked index of the files below a root, with import roots and files in memory.
fn linked_index(
    root: &str,
    files: &[(&str, &str)],
    import_roots: Vec<String>,
    disk: &[(&str, &str)],
) -> WorkspaceIndex {
    let modules = files
        .iter()
        .map(|(relative, source)| {
            parse_module(root, &format!("{root}/{relative}"), source.as_bytes()).unwrap()
        })
        .collect::<Vec<_>>();
    let mut index = build_workspace_index(root.to_string(), import_roots, modules);
    loop {
        match link_workspace(&mut index) {
            Ok(()) => return index,
            Err(faults) => {
                for fault in faults {
                    match fault {
                        Fault::NeedsModule(name) => supply(&mut index, disk, &name),
                        Fault::ImportCycle => panic!("imports form a cycle"),
                    }
                }
            }
        }
    }
}

fn build_test_index(files: &[(&str, &str)]) -> WorkspaceIndex {
    linked_index("/tmp/project", files, vec!["/stubs".to_string()], &[BUILTINS])
}

#[test]
fn parses_class_members_and_resolves_relative_imports() {
    let mut index = build_test_index(&[
        (
            "src/pkg/common.py",
            "class BaseModel:\n    collection_id: int\n    def save(self):\n        return 1\n",
        ),
        (
            "src/pkg/model.py",
            "from . import common\n\nclass Prize(common.BaseModel):\n    slug: str\n    image: str | None\n\n    def default_slug(self):\n        return self.slug\n",
        ),
    ]);

    let file = "/tmp/project/src/pkg/model.py";
    let result = ask(&mut index, &[BUILTINS], |index| {
        query_type_hierarchy(index, file, &None, "Prize")
    })
    .unwrap();

    assert_eq!(result.hierarchy.name, "Prize");
    assert_eq!(result.hierarchy.fields.len(), 2);
    assert!(result.hierarchy.fields[0].required);
    assert!(!result.hierarchy.fields[1].required);
    assert_eq!(result.hierarchy.ancestors.len(), 1);
    assert_eq!(result.hierarchy.ancestors[0].name, "BaseModel");
}

#[test]
fn lazy_hierarchy_index_resolves_ancestor_chain() {
    let disk = [
        ("/root/src/pkg/common.py", "class BaseModel:\n    collection_id: int\n"),
        (
            "/root/src/pkg/model.py",
            "from . import common\n\nclass Prize(common.BaseModel):\n    slug: str\n",
        ),
    ];

    let mut index = build_lazy_hierarchy_index("/root".to_string(), Vec::new());
    let result = ask(&mut index, &disk, |index| {
        query_type_hierarchy(index, "/root/src/pkg/model.py", &None, "Prize")
    })
    .expect("query hierarchy");

    assert_eq!(result.hierarchy.name, "Prize");
    assert_eq!(result.hierarchy.ancestors.len(), 1);
    assert_eq!(result.hierarchy.ancestors[0].name, "BaseModel");
}

#[test]
fn resolves_from_import_module_aliases() {
    let mut index = build_test_index(&[
        ("src/contrib/pydantic/base_types.py", "class Enum:\n    pass\n"),
        (
            "src/pkg/model.py",
            "from src.contrib.pydantic import base_types\n\nclass Choice(base_types.Enum):\n    pass\n",
        ),
    ]);

    let file = "/tmp/project/src/pkg/model.py";
    let result = ask(&mut index, &[BUILTINS], |index| {
        query_type_hierarchy(index, file, &None, "Choice")
    })
    .unwrap();
    assert_eq!(result.hierarchy.ancestors.len(), 1);
    assert_eq!(result.hierarchy.ancestors[0].name, "Enum");
    assert_eq!(
        result.hierarchy.ancestors[0].module,
        "src.contrib.pydantic.base_types"
    );
}

#[test]
fn resolves_external_package_reexports_and_builtins() {
    let disk = [
        (
            "/root/.venv/lib/python3.14/site-packages/pydantic/__init__.py",
            "from .main import *\n",
        ),
        (
            "/root/.venv/lib/python3.14/site-packages/pydantic/main.py",
            "class ModelMetaclass:\n    pass\n\nclass BaseModel(metaclass=ModelMetaclass):\n    pass\n",
        ),
        BUILTINS,
    ];
    let roots = order_import_roots(vec![
        "/stubs".to_string(),
        "/root/.venv/lib/python3.14/site-packages".to_string(),
    ]);
    let mut index = linked_index(
        "/root",
        &[
            (
                "src/pkg/common.py",
                "import pydantic\n\nclass BaseModel(pydantic.BaseModel):\n    collection_id: int\n",
            ),
            (
                "src/pkg/model.py",
                "from . import common\n\nclass Prize(common.BaseModel):\n    slug: str\n",
            ),
        ],
        roots,
        &disk,
    );
    let result = ask(&mut index, &disk, |index| {
        query_type_hierarchy(index, "/root/src/pkg/model.py", &None, "Prize")
    })
    .expect("query");

    assert_eq!(result.hierarchy.ancestors.len(), 1);
    assert_eq!(result.hierarchy.ancestors[0].name, "BaseModel");
    assert_eq!(result.hierarchy.ancestors[0].ancestors.len(), 1);
    assert_eq!(
        result.hierarchy.ancestors[0].ancestors[0].module,
        "pydantic.main"
    );
    assert_eq!(
        result.hierarchy.ancestors[0].ancestors[0].ancestors.len(),
        1
    );
    assert_eq!(
        result.hierarchy.ancestors[0].ancestors[0].ancestors[0].module,
        "builtins"
    );

    let external_result = ask(&mut index, &disk, |index| {
        query_type_hierarchy(
            index,
            "/root/.venv/lib/python3.14/site-packages/pydantic/main.py",
            &None,
            "BaseModel",
        )
    })
    .expect("query external module");
    assert_eq!(external_result.hierarchy.module, "pydantic.main");
    assert_eq!(external_result.hierarchy.ancestors[0].module, "builtins");
}

#[test]
fn resolves_bare_builtin_bases_in_external_modules() {
    let disk = [
        (
            "/root/.venv/lib/python3.14/site-packages/builtins.pyi",
            "class object:\n    pass\n\nclass str(object):\n    pass\n",
        ),
        (
            "/root/.venv/lib/python3.14/site-packages/enum.pyi",
            "class ReprEnum:\n    pass\n\nclass StrEnum(str, ReprEnum):\n    pass\n",
        ),
    ];
    let roots = vec!["/root/.venv/lib/python3.14/site-packages".to_string()];
    let mut index = linked_index("/root", &[], roots, &disk);
    let result = ask(&mut index, &disk, |index| {
        query_type_hierarchy(
            index,
            "/root/.venv/lib/python3.14/site-packages/enum.pyi",
            &None,
            "StrEnum",
        )
    })
    .expect("query external module");

    assert_eq!(result.hierarchy.module, "enum");
    assert_eq!(result.hierarchy.ancestors.len(), 2);
    assert_eq!(result.hierarchy.ancestors[0].name, "str");
    assert_eq!(result.hierarchy.ancestors[0].module, "builtins");
    assert_eq!(result.hierarchy.ancestors[1].name, "ReprEnum");
    assert_eq!(result.hierarchy.ancestors[1].module, "enum");
}

#[test]
fn resolves_workspace_subtypes() {
    let mut index = build_test_index(&[
        ("src/pkg/common.py", "class BaseModel:\n    pass\n"),
        (
            "src/pkg/model_a.py",
            "from .common import BaseModel\n\nclass Prize(BaseModel):\n    pass\n",
        ),
        (
            "src/pkg/model_b.py",
            "from .common import BaseModel\n\nclass Reward(BaseModel):\n    pass\n",
        ),
    ]);

    let items = ask(&mut index, &[BUILTINS], |index| {
        query_subtypes(index, "/tmp/project/src/pkg/common.py", &None, "BaseModel")
    })
    .unwrap();
    assert_eq!(items[0].kind, 5);
    assert_eq!(items[0].path, "/tmp/project/src/pkg/model_a.py");
    let names = items.into_iter().map(|item| item.name).collect::<Vec<_>>();
    assert_eq!(names, vec!["Prize", "Reward"]);
}

#[test]
fn resolves_field_type_members() {
    let mut index = build_test_index(&[
        (
            "src/pkg/common.py",
            "class Collection:\n    title: str\n    slug: str | None\n\n    def normalize(self) -> str:\n        return self.title\n",
        ),
        (
            "src/pkg/model.py",
            "from .common import Collection\n\nclass Prize:\n    collection: Collection\n",
        ),
    ]);

    let members = ask(&mut index, &[BUILTINS], |index| {
        query_class_members(index, "/tmp/project/src/pkg/model.py", &None, "Prize")
    })
    .expect("class members");
    assert_eq!(members.fields.len(), 1);
    assert_eq!(members.fields[0].type_ref.as_deref(), Some("Collection"));
    assert_eq!(members.fields[0].type_line, Some(4));
    assert_eq!(members.fields[0].type_col, Some(17));

    let resolved = ask(&mut index, &[BUILTINS], |index| {
        query_resolved_class_fields(index, "/tmp/project/src/pkg/model.py", &None, "Collection")
    })
    .expect("resolved field members");
    assert_eq!(resolved.class_name, "Collection");
    assert_eq!(resolved.methods.len(), 1);
    assert_eq!(resolved.methods[0].name, "normalize");
    assert_eq!(resolved.fields.len(), 2);
    assert_eq!(resolved.fields[0].name, "title");
    assert_eq!(resolved.fields[1].name, "slug");
}

#[test]
fn marks_method_only_field_targets_as_field_objects() {
    let mut index = build_test_index(&[
        (
            "src/pkg/common.py",
            "class Collection:\n    def normalize(self) -> str:\n        return \"\"\n",
        ),
        (
            "src/pkg/model.py",
            "from .common import Collection\n\nclass Prize:\n    collection: Collection\n",
        ),
    ]);

    let tree = ask(&mut index, &[BUILTINS], |index| {
        query_subtypes_tree_limited(
            index,
            "/tmp/project/src/pkg/model.py",
            &None,
            "Prize",
            Some(1),
            Some(1),
        )
    })
    .expect("subtype tree");
    assert_eq!(tree.tree.children.len(), 1);
    assert_eq!(tree.tree.children[0].name, "collection");
    assert_eq!(tree.tree.children[0].kind, "field_object");
}

#[test]
fn resolves_assigned_class_aliases_and_enum_members() {
    let mut index = build_test_index(&[
        (
            "src/pkg/source.py",
            "import enum\n\nclass Choice(str, enum.Enum):\n    button = \"button\"\n    picker = \"picker\"\n",
        ),
        (
            "src/pkg/model.py",
            "from . import source\n\nChoiceAlias = source.Choice\n\nclass Prize:\n    choice: ChoiceAlias\n",
        ),
    ]);

    let resolved = ask(&mut index, &[BUILTINS], |index| {
        query_resolved_class_fields(index, "/tmp/project/src/pkg/model.py", &None, "ChoiceAlias")
    })
    .expect("resolved alias enum members");
    assert_eq!(resolved.class_name, "Choice");
    assert_eq!(resolved.fields.len(), 2);
    assert_eq!(resolved.fields[0].name, "button");
    assert_eq!(resolved.fields[1].name, "picker");
}

const CALLS: &str = "def helper():\n    return 1\n\nclass Prize:\n    def save(self):\n        helper()\n        self.validate()\n\n    def validate(self):\n        return helper()\n";

#[test]
fn resolves_incoming_and_outgoing_calls() {
    let mut index = build_test_index(&[("src/pkg/model.py", CALLS)]);

    let outgoing_helper = ask(&mut index, &[BUILTINS], |index| {
        query_outgoing_calls(
            index,
            "/tmp/project/src/pkg/model.py",
            &None,
            "save",
            Some(5),
            Some(9),
        )
    })
    .unwrap();
    let outgoing_names = outgoing_helper
        .iter()
        .map(|edge| edge.item.name.clone())
        .collect::<Vec<_>>();
    assert_eq!(outgoing_names, vec!["helper", "validate"]);

    let incoming_helper = ask(&mut index, &[BUILTINS], |index| {
        query_incoming_calls(
            index,
            "/tmp/project/src/pkg/model.py",
            &None,
            "helper",
            Some(1),
            Some(5),
        )
    })
    .unwrap();
    let incoming_names = incoming_helper
        .iter()
        .map(|edge| edge.item.name.clone())
        .collect::<Vec<_>>();
    assert_eq!(incoming_names, vec!["save", "validate"]);
}

#[test]
fn resolves_callable_reference_under_cursor() {
    let mut index = build_test_index(&[("src/pkg/model.py", CALLS)]);

    let helper_ref = ask(&mut index, &[BUILTINS], |index| {
        query_resolved_callable_reference(index, "/tmp/project/src/pkg/model.py", &None, 6, 10)
    })
    .unwrap();
    assert_eq!(helper_ref.name, "helper");
    assert_eq!(helper_ref.line, 1);

    let validate_ref = ask(&mut index, &[BUILTINS], |index| {
        query_resolved_callable_reference(index, "/tmp/project/src/pkg/model.py", &None, 7, 16)
    })
    .unwrap();
    assert_eq!(validate_ref.name, "validate");
    assert_eq!(validate_ref.line, 9);
}

#[test]
fn resolves_incoming_calls_through_validator_aliases_and_field_usage() {
    let mut index = build_test_index(&[(
        "src/pkg/common.py",
        "from typing import Annotated\nimport pydantic\n\ndef process_str(value):\n    return value\n\nProcessedStringField = Annotated[str, pydantic.AfterValidator(process_str)]\n\nclass Prize:\n    name: ProcessedStringField\n",
    )]);

    let incoming = ask(&mut index, &[BUILTINS], |index| {
        query_incoming_calls(
            index,
            "/tmp/project/src/pkg/common.py",
            &None,
            "process_str",
            Some(4),
            Some(5),
        )
    })
    .unwrap();
    let incoming_names = incoming
        .iter()
        .map(|edge| edge.item.name.clone())
        .collect::<Vec<_>>();
    assert_eq!(incoming_names, vec!["ProcessedStringField"]);

    let tree = ask(&mut index, &[BUILTINS], |index| {
        query_incoming_calls_tree(
            index,
            "/tmp/project/src/pkg/common.py",
            &None,
            "process_str",
            Some(4),
            Some(5),
        )
    })
    .unwrap();
    assert_eq!(tree.tree.children.len(), 1);
    assert_eq!(tree.tree.children[0].name, "ProcessedStringField");
    assert_eq!(tree.tree.children[0].children.len(), 1);
    assert_eq!(tree.tree.children[0].children[0].name, "name");
}

#[test]
fn module_name_from_init_pyi_uses_package_name() {
    let root = "/tmp/project/.venv/lib/python3.14/site-packages";
    let path = format!("{root}/nh3/__init__.pyi");
    let module_name = module_name_from_path(root, &path).unwrap();
    assert_eq!(module_name, "nh3");
}

#[test]
fn a_call_has_its_place_on_both_ends() {
    let mut index = build_test_index(&[("src/pkg/model.py", CALLS)]);
    let file = "/tmp/project/src/pkg/model.py";
    let outgoing = ask(&mut index, &[], |index| {
        query_outgoing_calls(index, file, &None, "save", None, None)
    })
    .unwrap();
    let incoming = ask(&mut index, &[], |index| {
        query_incoming_calls(index, file, &None, "helper", None, None)
    })
    .unwrap();
    assert_eq!(outgoing[0].from_ranges, incoming[0].from_ranges);
    assert_eq!(outgoing[0].from_ranges.len(), 1);
    assert_eq!(outgoing[0].from_ranges[0].start.line, 6);
    assert_eq!(outgoing[0].from_ranges[0].start.col, 9);
    assert_eq!(outgoing[0].from_ranges[0].end.line, 6);
    assert_eq!(outgoing[0].from_ranges[0].end.col, 15);
    assert_eq!(outgoing[0].item.kind, 6);
    assert_eq!(outgoing[1].item.kind, 12);
}

#[test]
fn an_outgoing_tree_shows_calls_in_the_callers_file() {
    let mut index = build_test_index(&[("src/pkg/model.py", CALLS)]);
    let tree = ask(&mut index, &[], |index| {
        query_outgoing_calls_tree(
            index,
            "/tmp/project/src/pkg/model.py",
            &None,
            "save",
            Some(5),
            Some(9),
        )
    })
    .unwrap()
    .tree;
    assert_eq!(tree.kind, "call");
    assert_eq!(tree.children.len(), 2);
    assert_eq!(tree.children[0].name, "helper");
    assert_eq!(tree.children[0].line, 6);
    assert_eq!(tree.children[0].target_line, 1);
    assert_eq!(tree.children[1].name, "validate");
    assert_eq!(tree.children[1].children[0].name, "helper");
    assert_eq!(tree.children[1].children[0].line, 10);
}

#[test]
fn a_function_that_calls_itself_is_not_entered_again() {
    let mut index = build_test_index(&[("a.py", "def f():\n    f()\n")]);
    let tree = ask(&mut index, &[], |index| {
        query_outgoing_calls_tree(index, "/tmp/project/a.py", &None, "f", None, None)
    })
    .unwrap()
    .tree;
    assert!(!tree.recursive);
    assert_eq!(tree.children.len(), 1);
    assert!(tree.children[0].recursive);
    assert!(tree.children[0].children.is_empty());
}

#[test]
fn a_class_that_inherits_from_itself_is_not_entered_again() {
    let mut index = build_test_index(&[("a.py", "class A(B):\n    pass\n\nclass B(A):\n    pass\n")]);
    let result = ask(&mut index, &[BUILTINS], |index| {
        query_type_hierarchy(index, "/tmp/project/a.py", &None, "A")
    })
    .unwrap();
    assert_eq!(result.hierarchy.ancestors[0].name, "B");
    assert!(result.hierarchy.ancestors[0].ancestors[0].recursive);
    assert_eq!(result.hierarchy.ancestors[0].ancestors[0].path, None);

    let tree = ask(&mut index, &[BUILTINS], |index| {
        query_supertypes_tree(index, "/tmp/project/a.py", &None, "A")
    })
    .unwrap()
    .tree;
    assert!(tree.children[0].children[0].recursive);
    assert_eq!(tree.children[0].children[0].line, 1);

    let below = ask(&mut index, &[BUILTINS], |index| {
        query_subtypes_tree(index, "/tmp/project/a.py", &None, "A")
    })
    .unwrap()
    .tree;
    assert_eq!(below.children[0].name, "B");
    assert!(below.children[0].children[0].recursive);
}

#[test]
fn a_missing_base_is_shown_as_external_and_then_as_recursive() {
    let mut index = build_test_index(&[(
        "a.py",
        "import gone\n\nclass A(gone.Base, gone.Base, metaclass=M):\n    pass\n",
    )]);
    let result = ask(&mut index, &[BUILTINS], |index| {
        query_type_hierarchy(index, "/tmp/project/a.py", &None, "")
    })
    .unwrap();
    assert_eq!(result.class_name, "A");
    assert_eq!(result.hierarchy.raw_bases, vec!["gone.Base", "gone.Base", "metaclass=M"]);
    let above = &result.hierarchy.ancestors;
    assert_eq!(above.len(), 2);
    assert_eq!(above[0].module, "gone");
    assert!(above[0].external && !above[0].recursive);
    assert!(above[1].recursive && !above[1].external);
}

#[test]
fn an_unresolved_base_is_shown_as_written() {
    let mut index = build_test_index(&[("a.py", "class A(Nowhere[int]):\n    pass\n")]);
    let result = ask(&mut index, &[], |index| {
        query_type_hierarchy(index, "/tmp/project/a.py", &None, "A")
    })
    .unwrap();
    let above = &result.hierarchy.ancestors;
    assert_eq!(above.len(), 1);
    assert_eq!(above[0].name, "Nowhere[int]");
    assert_eq!(above[0].display_base, "Nowhere[int]");
    assert_eq!(above[0].module, "");
    assert!(above[0].external);
}

#[test]
fn a_class_without_bases_inherits_from_object() {
    let mut index = build_test_index(&[("a.py", "class A:\n    pass\n")]);
    let tree = ask(&mut index, &[BUILTINS], |index| {
        query_supertypes_tree(index, "/tmp/project/a.py", &None, "A")
    })
    .unwrap()
    .tree;
    assert_eq!(tree.children.len(), 1);
    assert_eq!(tree.children[0].name, "object");
    assert_eq!(tree.children[0].path, "/stubs/builtins.pyi");
    assert!(tree.children[0].external);
    assert!(tree.children[0].children.is_empty());
}

#[test]
fn a_tree_says_where_it_is_cut_off() {
    let mut index = build_test_index(&[(
        "a.py",
        "class A:\n    x: int\n\nclass B(A):\n    y: int\n\nclass C(B):\n    z: int\n",
    )]);
    let limited = |index: &mut WorkspaceIndex, depth, members| {
        ask(index, &[BUILTINS], |index| {
            query_subtypes_tree_limited(index, "/tmp/project/a.py", &None, "A", depth, members)
        })
        .unwrap()
        .tree
    };
    let one = limited(&mut index, Some(1), Some(1));
    assert!(one.truncated);
    assert_eq!(one.children.len(), 1);
    let two = limited(&mut index, Some(2), Some(1));
    assert!(!two.truncated);
    assert_eq!(two.children.len(), 2);
    assert!(two.children[1].truncated);
    assert!(two.children[1].children.is_empty());
    let all = limited(&mut index, None, None);
    assert!(!all.truncated);
    assert_eq!(all.children[1].children[1].name, "C");
    assert_eq!(all.children[0].type_label.as_deref(), Some("int"));
    assert!(all.children[0].required);
}

#[test]
fn imports_that_lead_in_a_circle_are_reported() {
    let a = parse_module("/p", "/p/a.py", b"from b import X\n").unwrap();
    let b = parse_module("/p", "/p/b.py", b"from a import X\n").unwrap();
    let c = parse_module("/p", "/p/c.py", b"from a import X\n\nclass C(X):\n    pass\n").unwrap();
    let mut index = build_workspace_index("/p".to_string(), Vec::new(), vec![a, b, c]);
    let error = ask(&mut index, &[], |index| {
        query_type_hierarchy(index, "/p/c.py", &None, "C")
    })
    .unwrap_err();
    assert!(matches!(error, QueryError::Unfollowed(Fault::ImportCycle)));
    assert_eq!(error.message(), "imports form a cycle");
    assert!(link_workspace(&mut index).is_err());
}

#[test]
fn names_are_followed_through_stars_and_chains() {
    let mut index = build_test_index(&[
        ("a.py", "from b import *\n"),
        ("b.py", "from c import Thing\n"),
        ("c.py", "class Thing:\n    pass\n\ndef make():\n    pass\n"),
        ("d.py", "from a import Thing\nfrom c import make\n\nclass D(Thing):\n    def go(self):\n        make()\n"),
    ]);
    let result = ask(&mut index, &[BUILTINS], |index| {
        query_type_hierarchy(index, "/tmp/project/d.py", &None, "D")
    })
    .unwrap();
    assert_eq!(result.hierarchy.ancestors[0].module, "c");
    let calls = ask(&mut index, &[BUILTINS], |index| {
        query_outgoing_calls(index, "/tmp/project/d.py", &None, "go", None, None)
    })
    .unwrap();
    assert_eq!(calls[0].item.name, "make");
    assert_eq!(calls[0].item.path, "/tmp/project/c.py");
    let subtypes = ask(&mut index, &[BUILTINS], |index| {
        query_subtypes(index, "/tmp/project/c.py", &None, "Thing")
    })
    .unwrap();
    assert_eq!(subtypes.len(), 1);
    assert_eq!(subtypes[0].name, "D");
}

#[test]
fn methods_are_found_in_bases() {
    let mut index = build_test_index(&[(
        "a.py",
        "class Base:\n    def run(self):\n        pass\n\nclass Child(Base):\n    def go(self):\n        self.run()\n        Child.run()\n",
    )]);
    let calls = ask(&mut index, &[BUILTINS], |index| {
        query_outgoing_calls(index, "/tmp/project/a.py", &None, "go", None, None)
    })
    .unwrap();
    assert_eq!(calls.len(), 1);
    assert_eq!(calls[0].item.name, "run");
    assert_eq!(calls[0].from_ranges.len(), 2);
}

#[test]
fn questions_without_an_answer_say_why() {
    let mut index = build_test_index(&[("a.py", "class A:\n    pass\n"), ("b.py", "x = 1\n")]);
    let message = |index: &mut WorkspaceIndex, file: &str, class: &str| {
        ask(index, &[], |index| query_type_hierarchy(index, file, &None, class))
            .unwrap_err()
            .message()
    };
    assert_eq!(
        message(&mut index, "/elsewhere/a.py", "A"),
        "file is not part of the index: /elsewhere/a.py"
    );
    assert_eq!(
        message(&mut index, "/tmp/project/gone.py", "A"),
        "module 'gone' is not part of the index"
    );
    assert_eq!(
        message(&mut index, "/tmp/project/a.py", "B"),
        "class 'B' not found in module a"
    );
    assert_eq!(message(&mut index, "/tmp/project/b.py", ""), "no classes found in module");
    let members = ask(&mut index, &[], |index| {
        query_class_members(index, "/tmp/project/a.py", &None, "B")
    });
    assert_eq!(members.unwrap_err().message(), "class 'a.B' is not in the index");
    let fields = ask(&mut index, &[], |index| {
        query_resolved_class_fields(index, "/tmp/project/a.py", &None, "Nope")
    });
    assert_eq!(
        fields.unwrap_err().message(),
        "could not resolve field type 'Nope' from /tmp/project/a.py"
    );
    let calls = ask(&mut index, &[], |index| {
        query_outgoing_calls(index, "/tmp/project/a.py", &None, "f", None, None)
    });
    assert_eq!(calls.unwrap_err().message(), "function 'f' not found in module a");
    let reference = ask(&mut index, &[], |index| {
        query_resolved_callable_reference(index, "/tmp/project/a.py", &None, 1, 1)
    });
    assert_eq!(
        reference.unwrap_err().message(),
        "no callable reference found at the current cursor position"
    );
    let needed = query_type_hierarchy(&index, "/tmp/project/later.py", &None, "A");
    assert_eq!(needed.unwrap_err().message(), "module 'later' has not been loaded");
}

#[test]
fn a_file_is_found_by_its_canonical_path() {
    let mut index = build_test_index(&[("a.py", "class A:\n    pass\n")]);
    let canonical = Some("/tmp/project/a.py".to_string());
    let members = ask(&mut index, &[], |index| {
        query_class_members(index, "/link/a.py", &canonical, "A")
    })
    .unwrap();
    assert_eq!(members.file, "/tmp/project/a.py");
}

#[test]
fn a_missing_class_of_a_missing_module_is_reported() {
    let mut index = build_test_index(&[("a.py", "import gone\n\nclass A:\n    x: gone.Thing\n")]);
    let fields = ask(&mut index, &[], |index| {
        query_resolved_class_fields(index, "/tmp/project/a.py", &None, "gone.Thing")
    });
    assert_eq!(fields.unwrap_err().message(), "module 'gone' is not part of the index");
    let error = QueryError::ModuleMissing { module: "gone".to_string() };
    assert_eq!(error.message(), "module 'gone' is not in the index");
}
