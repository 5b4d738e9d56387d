use telepy_parser::errors::Fault;
use telepy_parser::errors::QueryError;
use telepy_parser::index::evict_module_file;
use telepy_parser::index::refresh_import_roots;
use telepy_parser::index::WorkspaceIndex;
use telepy_parser::parser::parse_module;
use telepy_parser::parser::parse_module_with_name;
use telepy_parser::paths::is_python_source;
use telepy_parser::paths::join_path;
use telepy_parser::paths::join_segments;
use telepy_parser::paths::module_file_candidates;
use telepy_parser::paths::module_name_from_path;
use telepy_parser::paths::module_path_candidates;
use telepy_parser::paths::package_name_for_module;
use telepy_parser::paths::plain_path;
use telepy_parser::paths::should_skip_dir;
use telepy_parser::queries::query_class_members;
use telepy_parser::queries::query_subtypes_tree;
use telepy_parser::queries::query_type_hierarchy;
use telepy_parser::queries::range_contains_position;
use telepy_parser::model::RangePoint;
use telepy_parser::model::SourceRange;
use telepy_parser::relations::link_workspace;
use telepy_parser::shape::collect_hierarchy_shape;
use telepy_parser::workspace::build_lazy_hierarchy_index;
use telepy_parser::workspace::build_workspace_index;
use telepy_parser::workspace::ensure_full_build;
use telepy_parser::workspace::module_search_paths;
use telepy_parser::workspace::supply_module;

#[test]
fn modules_are_named_by_their_paths() {
    for (root, path, name) in [
        ("/p", "/p/a.py", "a"),
        ("/p/", "/p/pkg/b.pyi", "pkg.b"),
        ("/p", "/p/pkg/__init__.py", "pkg"),
        ("/p", "/p/__init__.py", ""),
        ("/p", "/p/pkg//c.txt", "pkg.c.txt"),
        ("", "x/y.py", "x.y"),
        ("/p", "/p/.py", ""),
        ("/p", "/p/q/.py", "q"),
    ] {
        assert_eq!(module_name_from_path(root, path).unwrap(), name, "{path}");
    }
    assert!(module_name_from_path("/p", "p/a.py").is_err());
    assert!(module_name_from_path("/p/q", "/p/a.py").is_err());
}

#[test]
fn paths_are_the_same_in_whatever_form() {
    for (path, plain) in [
        ("/p/./m.py", "/p/m.py"),
        ("//p/.//m.py/.", "/p/m.py"),
        ("/./p", "/p"),
        ("./p/./m.py", "./p/m.py"),
        ("p/../m.py", "p/../m.py"),
        ("/", "/"),
        (".", "."),
        ("", ""),
    ] {
        assert_eq!(plain_path(path), plain);
        assert_eq!(plain_path(plain), plain);
    }
    assert_eq!(module_name_from_path("/p", "/p/./m.py").unwrap(), "m");
    assert_eq!(module_name_from_path("/p/.", "/p/a/./__init__.py").unwrap(), "a");
    assert!(module_name_from_path("p", "./p/m.py").is_err());
    assert_eq!(module_name_from_path("", "./m.py").unwrap(), "..m");

    let mut index = lazy();
    index.add_workspace_module(parse_module("/p", "/p/./lib/m.py", b"class M: pass\n").unwrap());
    assert_eq!(index.module_name_for_file("/p/lib/./m.py").as_deref(), Some("lib.m"));
    evict_module_file(&mut index, "/p/lib//m.py");
    assert!(matches!(index.get_module("lib.m"), Err(Fault::NeedsModule(_))));
    refresh_import_roots(&mut index, vec!["/site/.".to_string(), "/new/./x".to_string(), "/new/x".to_string()]);
    assert_eq!(index.import_roots, vec!["/site", "/p/lib", "/new/./x"]);
}

#[test]
fn an_empty_root_is_above_every_path() {
    assert_eq!(module_name_from_path("", "/a.py").unwrap(), "/.a");
    assert_eq!(module_name_from_path("", "/a/__init__.py").unwrap(), "/.a");
    assert_eq!(module_name_from_path("", "a/b.py").unwrap(), "a.b");
    assert_eq!(module_name_from_path("", "/").unwrap(), "/");
    assert!(module_name_from_path("", "").is_err());
    assert_eq!(module_name_from_path("/", "/a.py").unwrap(), "a");
    assert!(module_name_from_path("/", "a.py").is_err());
    assert!(module_name_from_path("a", "/a/b.py").is_err());
    assert!(module_name_from_path("/a", "a/b.py").is_err());
    assert!(module_name_from_path("/", "/").is_err());
}

#[test]
fn relative_imports_start_from_the_package() {
    assert_eq!(package_name_for_module("/p/a/b.py", "a.b"), "a");
    assert_eq!(package_name_for_module("/p/b.py", "b"), "");
    assert_eq!(package_name_for_module("/p/a/b/__init__.pyi", "a.b"), "a.b");
}

#[test]
fn module_files_lead_back_to_the_module() {
    assert_eq!(
        module_file_candidates("a.b"),
        vec![
            vec!["a", "b.pyi"],
            vec!["a", "b.py"],
            vec!["a", "b", "__init__.pyi"],
            vec!["a", "b", "__init__.py"],
        ]
    );
    for root in ["/p", "/p/", "", "rel"] {
        for path in module_path_candidates(root, "a.b") {
            assert_eq!(module_name_from_path(root, &path).unwrap(), "a.b", "{path}");
        }
    }
    assert_eq!(join_path("/p", "a"), "/p/a");
    assert_eq!(join_path("/", "a"), "/a");
    assert_eq!(join_path("", "a"), "a");
    assert_eq!(join_path("/p", "/a"), "/a");
    assert_eq!(join_path("/p", ""), "/p/");
    assert_eq!(join_segments("/p", &vec!["a".to_string(), "b".to_string()]), "/p/a/b");
}

#[test]
fn some_directories_and_files_are_passed_over() {
    for name in [
        ".git",
        ".hg",
        ".svn",
        ".mypy_cache",
        ".pytest_cache",
        ".ruff_cache",
        ".tox",
        ".venv",
        "__pycache__",
        "node_modules",
        "site-packages",
        "dist-packages",
    ] {
        assert!(should_skip_dir(name), "{name}");
    }
    assert!(!should_skip_dir("src") && !should_skip_dir("venv") && !should_skip_dir(""));
    for name in ["a.py", "a.pyi", "a.b.py", "..py"] {
        assert!(is_python_source(name), "{name}");
    }
    for name in [".py", "py", "a.pyc", "a.py.txt", "a.", "", "a.PY"] {
        assert!(!is_python_source(name), "{name}");
    }
}

fn lazy() -> WorkspaceIndex {
    build_lazy_hierarchy_index("/p".to_string(), vec!["/site".to_string(), "/p/lib".to_string()])
}

#[test]
fn modules_are_looked_for_inside_then_outside() {
    let index = lazy();
    let (inside, outside) = module_search_paths(&index, "m");
    assert_eq!(inside, vec!["/p/m.pyi", "/p/m.py", "/p/m/__init__.pyi", "/p/m/__init__.py"]);
    assert_eq!(outside.len(), 8);
    assert_eq!(outside[0], "/site/m.pyi");
    assert_eq!(outside[7], "/p/lib/m/__init__.py");
}

#[test]
fn files_are_named_after_the_first_import_root_that_holds_them() {
    let index = lazy();
    assert_eq!(index.root(), "/p");
    assert_eq!(index.module_name_for_file("/p/lib/a.py").as_deref(), Some("a"));
    assert_eq!(index.module_name_for_file("/p/b.py").as_deref(), Some("b"));
    assert_eq!(index.module_name_for_file("/site/x/y.pyi").as_deref(), Some("x.y"));
    assert_eq!(index.module_name_for_file("/q/b.py"), None);
    assert!(matches!(
        index.resolve_module_name("/q/b.py", &Some("/r/b.py".to_string())),
        Err(QueryError::FileNotIndexed { file }) if file == "/q/b.py"
    ));
}

#[test]
fn a_workspace_module_hides_one_from_outside() {
    let mut index = lazy();
    index.add_external_module(parse_module_with_name("/site/m.py", "m", b"class Out: pass\n").unwrap());
    let (module, external) = index.get_module("m").unwrap().unwrap();
    assert!(external && module.has_class("Out"));
    index.add_workspace_module(parse_module_with_name("/p/m.py", "m", b"class In: pass\n").unwrap());
    let (module, external) = index.get_module("m").unwrap().unwrap();
    assert!(!external && module.has_class("In"));
}

#[test]
fn modules_found_inside_come_before_those_found_outside() {
    let inside = || parse_module_with_name("/p/m.py", "m", b"class In: pass\n").ok();
    let outside = || parse_module_with_name("/site/m.py", "m", b"class Out: pass\n").ok();
    for (found_inside, found_outside, path, external) in [
        (inside(), None, "/p/m.py", false),
        (inside(), outside(), "/p/m.py", false),
        (None, outside(), "/site/m.py", true),
    ] {
        let mut index = lazy();
        supply_module(&mut index, "m".to_string(), found_inside, found_outside);
        let (module, lies_outside) = index.get_module("m").unwrap().unwrap();
        assert_eq!(module.path, path);
        assert_eq!(lies_outside, external);
    }
    let mut index = lazy();
    supply_module(&mut index, "m".to_string(), None, None);
    assert!(index.get_module("m").unwrap().is_none());
}

#[test]
fn absent_modules_are_looked_for_again_once_forgotten() {
    let mut index = lazy();
    assert!(matches!(index.get_module("m"), Err(Fault::NeedsModule(name)) if name == "m"));
    index.mark_absent("m".to_string());
    assert!(matches!(index.get_module("m"), Ok(None)));
    index.forget_absent();
    assert!(index.get_module("m").is_err());
}

#[test]
fn an_evicted_file_is_read_again() {
    let mut index = lazy();
    index.add_workspace_module(parse_module("/p", "/p/m.py", b"class Old: pass\n").unwrap());
    index.add_workspace_module(parse_module("/p", "/p/n.py", b"class N: pass\n").unwrap());
    evict_module_file(&mut index, "/p/other.py");
    assert!(index.get_module("m").is_ok());
    evict_module_file(&mut index, "/p/m.py");
    assert!(matches!(index.get_module("m"), Err(Fault::NeedsModule(_))));
    assert!(index.get_module("n").is_ok());
    index.add_workspace_module(parse_module("/p", "/p/m.py", b"class New: pass\n").unwrap());
    let members = query_class_members(&index, "/p/m.py", &None, "").unwrap();
    assert_eq!(members.class_name, "New");
}

#[test]
fn new_import_roots_are_added_behind_the_known_ones() {
    let mut index = lazy();
    let discovered = ["/z", "/site", "/a", "/z"].map(|root| root.to_string()).to_vec();
    refresh_import_roots(&mut index, discovered);
    assert_eq!(index.import_roots, vec!["/site", "/p/lib", "/z", "/a"]);
}

#[test]
fn the_last_module_of_a_name_and_a_path_is_found() {
    let first = parse_module("/p", "/p/a.pyi", b"class First: pass\n").unwrap();
    let second = parse_module("/p", "/p/a.py", b"class Second: pass\n").unwrap();
    let index = build_workspace_index("/p".to_string(), Vec::new(), vec![first, second]);
    let (module, _) = index.get_module("a").unwrap().unwrap();
    assert!(module.has_class("Second"));
    assert_eq!(index.modules_by_name.len(), 1);
    assert_eq!(index.module_name_for_file("/p/a.pyi").as_deref(), Some("a"));
}

#[test]
fn a_full_index_is_built_once() {
    let module = |source: &[u8]| parse_module("/p", "/p/a.py", source).unwrap();
    let mut full = None;
    ensure_full_build(&mut full, "/p", Vec::new(), vec![module(b"class A: pass\n")]);
    ensure_full_build(&mut full, "/p", Vec::new(), vec![module(b"class B: pass\n")]);
    let index = full.unwrap();
    assert!(index.get_module("a").unwrap().unwrap().0.has_class("A"));
}

#[test]
fn an_index_that_needs_modules_stays_as_it_was() {
    let a = parse_module("/p", "/p/a.py", b"import m\n\nclass A(m.B):\n    def f(self):\n        m.g()\n").unwrap();
    let mut index = build_workspace_index("/p".to_string(), Vec::new(), vec![a]);
    let faults = link_workspace(&mut index).unwrap_err();
    let needed = faults
        .iter()
        .map(|fault| match fault {
            Fault::NeedsModule(name) => name.as_str(),
            Fault::ImportCycle => "cycle",
        })
        .collect::<Vec<_>>();
    assert_eq!(needed, vec!["m", "m"]);
    assert_eq!(index.direct_subtypes.len(), 0);
    index.add_workspace_module(parse_module("/p", "/p/m.py", b"class B: pass\n\ndef g(): pass\n").unwrap());
    link_workspace(&mut index).unwrap();
    let children = index.direct_subtypes.get("m::B").unwrap();
    assert_eq!(*children, vec![("a".to_string(), "A".to_string())]);
    let edges = index.outgoing_calls.get("a::A::f@4:9").unwrap();
    assert_eq!(edges[0].0, "m::::g@3:5");
    let back = index.incoming_calls.get("m::::g@3:5").unwrap();
    assert_eq!(back[0].1.from_ranges, edges[0].1.from_ranges);
}

#[test]
fn the_tables_of_calls_list_the_same_calls() {
    let a = parse_module(
        "/p",
        "/p/a.py",
        b"import b\n\ndef f():\n    g()\n    b.h()\n    g()\n\ndef g():\n    f()\n    unknown()\n",
    )
    .unwrap();
    let b = parse_module("/p", "/p/b.py", b"def h():\n    h()\n").unwrap();
    let mut index = build_workspace_index("/p".to_string(), Vec::new(), vec![a, b]);
    link_workspace(&mut index).unwrap();
    let mut outgoing = Vec::new();
    for i in 0..index.outgoing_calls.len() {
        let near = index.outgoing_calls.key_at(i);
        for (far, edge) in index.outgoing_calls.value_at(i) {
            assert!(!edge.from_ranges.is_empty());
            let back = index.incoming_calls.get(far).unwrap();
            let matching = back.iter().filter(|(key, _)| key == near).collect::<Vec<_>>();
            assert_eq!(matching.len(), 1);
            assert_eq!(matching[0].1.from_ranges, edge.from_ranges);
            outgoing.push((matching[0].1.item.name.as_str(), edge.item.name.as_str(), edge.from_ranges.len()));
        }
    }
    assert_eq!(outgoing, vec![("f", "g", 2), ("f", "h", 1), ("g", "f", 1), ("h", "h", 1)]);
    let mut incoming = 0;
    for i in 0..index.incoming_calls.len() {
        for (_, edge) in index.incoming_calls.value_at(i) {
            incoming += edge.from_ranges.len();
        }
    }
    assert_eq!(incoming, 5);
}

#[test]
fn links_and_rows_do_not_change_when_more_modules_come_to_hand() {
    let a = parse_module("/p", "/p/a.py", b"class A: pass\n\nclass B(A): pass\n").unwrap();
    let mut index = build_workspace_index("/p".to_string(), Vec::new(), vec![a]);
    link_workspace(&mut index).unwrap();
    let before = query_subtypes_tree(&index, "/p/a.py", &None, "A").unwrap();
    supply_module(&mut index, "builtins".to_string(), None, None);
    supply_module(
        &mut index,
        "b".to_string(),
        parse_module("/p", "/p/b.py", b"class A: pass\n").ok(),
        None,
    );
    link_workspace(&mut index).unwrap();
    assert_eq!(index.direct_subtypes.len(), 1);
    let after = query_subtypes_tree(&index, "/p/a.py", &None, "A").unwrap();
    assert_eq!(format!("{before:?}"), format!("{after:?}"));
    assert_eq!(after.tree.children[0].name, "B");
}

#[test]
fn an_answer_does_not_change_when_more_modules_come_to_hand() {
    let mut index = lazy();
    index.mark_absent("builtins".to_string());
    index.add_workspace_module(
        parse_module("/p", "/p/a.py", b"class Base: pass\n\nclass A(Base): pass\n").unwrap(),
    );
    let before = query_type_hierarchy(&index, "/p/a.py", &None, "A").unwrap();
    index.add_workspace_module(parse_module("/p", "/p/b.py", b"class Base: pass\n").unwrap());
    index.add_external_module(parse_module_with_name("/site/c.py", "c", b"class Base: pass\n").unwrap());
    index.mark_absent("d".to_string());
    let after = query_type_hierarchy(&index, "/p/a.py", &None, "A").unwrap();
    assert_eq!(format!("{before:?}"), format!("{after:?}"));
    assert_eq!(after.hierarchy.ancestors[0].name, "Base");
    assert!(after.hierarchy.ancestors[0].ancestors.is_empty());
}

#[test]
fn a_hierarchy_is_measured() {
    let mut index = lazy();
    index.mark_absent("builtins".to_string());
    index.add_workspace_module(
        parse_module(
            "/p",
            "/p/a.py",
            b"class A:\n    x: int\n    def f(self): pass\n\nclass B(A): pass\n\nclass C(B, A):\n    y: int\n",
        )
        .unwrap(),
    );
    let result = query_type_hierarchy(&index, "/p/a.py", &None, "C").unwrap();
    let again = &result.hierarchy.ancestors[1].ancestors[0];
    assert!(again.name == "object" && again.recursive);
    let shape = collect_hierarchy_shape(&result.hierarchy).unwrap();
    assert_eq!(shape.class_nodes, 5);
    assert_eq!(shape.method_count, 2);
    assert_eq!(shape.field_count, 3);
    assert_eq!(shape.max_depth, 3);
}

#[test]
fn ranges_hold_their_ends() {
    let range = SourceRange {
        start: RangePoint { line: 2, col: 5 },
        end: RangePoint { line: 4, col: 3 },
    };
    for (line, col, held) in [
        (1, 9, false),
        (2, 4, false),
        (2, 5, true),
        (3, 1, true),
        (4, 3, true),
        (4, 4, false),
        (5, 1, false),
    ] {
        assert_eq!(range_contains_position(&range, line, col), held, "{line}:{col}");
    }
}
