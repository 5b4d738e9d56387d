use rustpython_parser::Tok;
use telepy_parser::lines::build_line_starts;
use telepy_parser::lines::LineIndex;
use telepy_parser::model::callable_key;
use telepy_parser::model::class_key;
use telepy_parser::model::ImportBinding;
use telepy_parser::model::ModuleInfo;
use telepy_parser::parser::parse_module;
use telepy_parser::parser::parse_module_text;
use telepy_parser::parser::parse_module_with_name;
use telepy_parser::parser::ModuleError;
use telepy_parser::statements::resolve_from_module;
use telepy_parser::tokens::collect_tokens;
use telepy_parser::tokens::tokenize;
use telepy_parser::tokens::TokenKindTag;

fn read(source: &str) -> ModuleInfo {
    parse_module("/p", "/p/pkg/mod.py", source.as_bytes()).unwrap()
}

fn module_of<'a>(module: &'a ModuleInfo, name: &str) -> &'a str {
    match module.binding(name) {
        Some(ImportBinding::Module { module }) => module,
        other => panic!("{name} is bound to {other:?}"),
    }
}

fn name_of(module: &ModuleInfo, name: &str) -> (String, String) {
    match module.binding(name) {
        Some(ImportBinding::ImportedName { module, name }) => (module.clone(), name.clone()),
        other => panic!("{name} is bound to {other:?}"),
    }
}

fn pair(module: &str, name: &str) -> (String, String) {
    (module.to_string(), name.to_string())
}

#[test]
fn imports_bind_modules_under_their_last_part_or_alias() {
    let module = read("import os, a.b.c, x.y as z, w as\nimport q.r s\n");
    assert_eq!(module_of(&module, "os"), "os");
    assert_eq!(module_of(&module, "c"), "a.b.c");
    assert_eq!(module_of(&module, "z"), "x.y");
    assert_eq!(module_of(&module, "w"), "w");
    assert_eq!(module_of(&module, "r"), "q.r");
    assert!(module.binding("a").is_none());
    assert_eq!(module.imports.len(), 5);
}

#[test]
fn from_imports_bind_names_modules_and_stars() {
    let module = read(
        "from a.b import X, Y as Z\nfrom . import sib, other as o\nfrom .inner import (\n    P,\n    Q as R,\n)\nfrom ..up import U\nfrom .stars import *\nfrom c import *, D\nfrom nothing\n",
    );
    assert_eq!(name_of(&module, "X"), pair("a.b", "X"));
    assert_eq!(name_of(&module, "Z"), pair("a.b", "Y"));
    assert_eq!(module_of(&module, "sib"), "pkg.sib");
    assert_eq!(module_of(&module, "o"), "pkg.other");
    assert_eq!(name_of(&module, "P"), pair("pkg.inner", "P"));
    assert_eq!(name_of(&module, "R"), pair("pkg.inner", "Q"));
    assert_eq!(name_of(&module, "U"), pair("up", "U"));
    assert_eq!(module.star_imports, vec!["pkg.stars", "c"]);
    assert!(module.binding("D").is_none());
}

#[test]
fn dots_lead_upwards_from_the_package() {
    for (package, level, part, module) in [
        ("a.b", 0, "x.y", "x.y"),
        ("a.b", 1, "x", "a.b.x"),
        ("a.b", 2, "x", "a.x"),
        ("a.b", 3, "x", "x"),
        ("a.b", 4, "x", "x"),
        ("a.b", 2, "", "a"),
        ("", 1, "x.y", "x.y"),
        ("", 1, "", ""),
    ] {
        assert_eq!(resolve_from_module(package, level, part), module);
    }
    let init = parse_module("/p", "/p/pkg/__init__.py", b"from . import sib\n").unwrap();
    assert_eq!(init.module_name, "pkg");
    assert_eq!(module_of(&init, "sib"), "pkg.sib");
}

#[test]
fn assignments_give_known_classes_and_modules_other_names() {
    let module = read(
        "import a.b\nfrom c import D\nclass Own:\n    pass\nOther = Own\nMod = b\nPart = b.x.y\nDeep = D.e\nNone_ = unknown\nCall = D()\n",
    );
    assert_eq!(name_of(&module, "Other"), pair("pkg.mod", "Own"));
    assert_eq!(module_of(&module, "Mod"), "a.b");
    assert_eq!(name_of(&module, "Part"), pair("a.b.x", "y"));
    assert_eq!(name_of(&module, "Deep"), pair("c.D", "e"));
    assert!(module.binding("None_").is_none());
    assert!(module.binding("Call").is_none());
    let kinds = module.functions.iter().map(|f| (f.name.as_str(), f.kind)).collect::<Vec<_>>();
    assert_eq!(kinds, vec![("None_", 13)]);
    assert_eq!(module.functions[0].calls[0].raw_target, "unknown");
}

#[test]
fn classes_have_their_bases_as_written() {
    let module = read(
        "class A: pass\nclass B[T](a.b, List[\n    int ], (x, y), metaclass = M): pass\nclass C(): pass\nclass D(A\n",
    );
    assert_eq!(module.classes[0].bases, Vec::<String>::new());
    assert_eq!(module.classes[1].bases, vec!["a.b", "List[ int ]", "(x, y)", "metaclass = M"]);
    assert_eq!(module.classes[2].bases, Vec::<String>::new());
    assert_eq!(module.classes.len(), 3);
    assert_eq!((module.classes[1].line, module.classes[1].col), (2, 7));
}

#[test]
fn fields_are_declared_by_annotation_or_assignment() {
    let module = read(
        "class A:\n    x: int\n    y: str | None\n    z: list[int] = []\n    w = Other(1)\n    v: dict[str, f(a=1)]\n    u :\n    t = \n    for i in y: pass\n    def m(self):\n        q: int\n",
    );
    let class = &module.classes[0];
    let fields = class
        .fields
        .iter()
        .map(|f| (f.name.as_str(), f.annotation.as_str(), f.required, f.type_ref.as_deref()))
        .collect::<Vec<_>>();
    assert_eq!(
        fields,
        vec![
            ("x", "int", true, Some("int")),
            ("y", "str | None", false, Some("str")),
            ("z", "list[int]", false, Some("list")),
            ("w", "Other(1)", true, Some("Other")),
            ("v", "dict[str, f(a=1)]", true, Some("dict")),
        ]
    );
    assert_eq!((class.fields[0].line, class.fields[0].col), (2, 5));
    assert_eq!((class.fields[0].type_line, class.fields[0].type_col), (Some(2), Some(8)));
    assert_eq!(class.methods.len(), 1);
    assert_eq!((class.methods[0].line, class.methods[0].col), (10, 9));
}

#[test]
fn enum_members_have_the_type_of_their_value() {
    let module = read(
        "class E(Enum):\n    a = \"x\"\n    b = 'y'\n    c = 3\n    d = -1\n    e = auto()\n    f: Other\n\nclass User:\n    one: E\n    two: E.a\n    three: int\n",
    );
    let members = module.classes[0]
        .fields
        .iter()
        .map(|f| (f.name.as_str(), f.annotation.as_str(), f.required, f.type_ref.is_some()))
        .collect::<Vec<_>>();
    assert_eq!(
        members,
        vec![
            ("a", "str", false, false),
            ("b", "str", false, false),
            ("c", "int", false, false),
            ("d", "int", false, false),
            ("e", "", false, false),
            ("f", "Other", true, true),
        ]
    );
    let required = module.classes[1].fields.iter().map(|f| f.required).collect::<Vec<_>>();
    assert_eq!(required, vec![false, true, true]);
}

#[test]
fn fields_typed_as_an_enum_of_the_module_are_never_required() {
    let module = read("class A(Enum):\n    p = 1\n\nclass B(Enum):\n    x: A\n    y: B\n    z: int\n\nclass C:\n    x: A\n    y: C\n");
    let required = |class: usize| module.classes[class].fields.iter().map(|f| f.required).collect::<Vec<_>>();
    assert_eq!(required(0), vec![false]);
    assert_eq!(required(1), vec![false, false, true]);
    assert_eq!(required(2), vec![false, true]);
}

#[test]
fn functions_methods_and_fields_are_listed_with_their_kinds() {
    let module = read(
        "async def top():\n    a.b(c(1))\n    d.e\n\nclass A:\n    x: pkg.T\n    def m(self):\n        self.n()\n        def inner():\n            g()\n    if True:\n        def late(self): pass\n",
    );
    let listed = module
        .functions
        .iter()
        .map(|f| (f.name.as_str(), f.kind, f.class_name.as_deref()))
        .collect::<Vec<_>>();
    assert_eq!(
        listed,
        vec![
            ("top", 6, None),
            ("x", 8, Some("A")),
            ("m", 12, Some("A")),
            ("inner", 6, None),
            ("late", 6, None),
        ]
    );
    let calls = |i: usize| {
        module.functions[i].calls.iter().map(|c| c.raw_target.as_str()).collect::<Vec<_>>()
    };
    assert_eq!(calls(0), vec!["a.b", "c"]);
    assert_eq!(calls(1), vec!["pkg.T"]);
    assert_eq!(calls(2), vec!["self.n"]);
    assert_eq!(calls(3), vec!["g"]);
    let range = module.functions[1].calls[0].range;
    assert_eq!((range.start.line, range.start.col, range.end.line, range.end.col), (6, 8, 6, 12));
    let range = module.functions[0].calls[0].range;
    assert_eq!((range.start.line, range.start.col, range.end.line, range.end.col), (2, 5, 2, 8));
}

#[test]
fn every_method_is_among_the_functions() {
    let module = read(
        "class A:\n    def one(self): pass\n    async def two(self): pass\n    class Inner:\n        def three(self): pass\n",
    );
    for class in &module.classes {
        for method in &class.methods {
            assert!(module.functions.iter().any(|f| f.kind == 12
                && f.class_name.as_deref() == Some(class.name.as_str())
                && f.name == method.name
                && (f.line, f.col) == (method.line, method.col)));
        }
    }
    assert_eq!(module.classes.len(), 2);
    assert_eq!(module.classes[0].methods.len(), 2);
    assert_eq!(module.classes[1].methods.len(), 1);
}

#[test]
fn values_refer_to_names_that_are_neither_called_nor_arguments() {
    let module = read("V = wrap(a.b, key=c, other=d.e, f) + a.b\nW = 1\n");
    assert_eq!(module.functions.len(), 1);
    let function = &module.functions[0];
    assert_eq!((function.name.as_str(), function.kind), ("V", 13));
    let names = function.calls.iter().map(|c| c.raw_target.as_str()).collect::<Vec<_>>();
    assert_eq!(names, vec!["a.b", "c", "d.e", "f", "a.b"]);
}

#[test]
fn the_last_class_of_a_name_counts() {
    let module = read("class A:\n    pass\n\nclass A(B):\n    pass\n");
    assert!(module.has_class("A") && !module.has_class("B"));
    assert_eq!(module.class_named("A").unwrap().line, 4);
    assert!(module.class_named("B").is_none());
}

#[test]
fn an_unclosed_bracket_ends_the_reading() {
    let module = read("class A:\n    pass\n\nx = (1,\n");
    assert_eq!(module.classes.len(), 1);
    assert_eq!(module.functions.len(), 0);
}

#[test]
fn bytes_that_are_no_text_are_replaced() {
    let module = parse_module("/p", "/p/a.py", b"class A\xff:\n    pass\nclass B:\n    x: int\n").unwrap();
    assert_eq!(module.classes.last().unwrap().name, "B");
    let text = parse_module_text("/p/a.py", "a", "class \u{e9}t\u{e9}(x):\n    pass\n").unwrap();
    assert_eq!(text.classes[0].name, "\u{e9}t\u{e9}");
    assert_eq!((text.classes[0].line, text.classes[0].col), (1, 7));
    assert_eq!(text.classes[0].bases, vec!["x"]);
}

#[test]
fn files_outside_the_root_have_no_module() {
    match parse_module("/p", "/q/a.py", b"") {
        Err(ModuleError::Path(error)) => {
            assert_eq!(error.message(), "/q/a.py is not under /p");
        }
        _ => panic!("a module outside the root"),
    }
    match parse_module("/p", "/p", b"") {
        Err(ModuleError::Path(error)) => {
            assert_eq!(error.message(), "empty module path for /p");
        }
        _ => panic!("a module without a name"),
    }
    let named = parse_module_with_name("/q/a.py", "other.name", b"").unwrap();
    assert_eq!((named.path.as_str(), named.module_name.as_str()), ("/q/a.py", "other.name"));
}

#[test]
fn lines_start_behind_line_feeds() {
    assert_eq!(build_line_starts(b""), vec![0]);
    assert_eq!(build_line_starts(b"a\n"), vec![0]);
    assert_eq!(build_line_starts(b"a\n\nbc\nd"), vec![0, 2, 3, 6]);
    let mut index = LineIndex::new(b"a\n\nbc\nd");
    let positions = [0u32, 1, 2, 3, 4, 5, 6, 7, 3, 0, 6].map(|offset| index.line_col_at(offset));
    assert_eq!(
        positions,
        [
            (1, 1),
            (1, 2),
            (2, 1),
            (3, 1),
            (3, 2),
            (3, 3),
            (4, 1),
            (4, 2),
            (3, 1),
            (1, 1),
            (4, 1)
        ]
    );
    for offset in [6u32, 0, 7, 3] {
        let (line, _) = index.line_col_at(offset);
        assert_eq!(index.cursor, line - 1);
    }
}

#[test]
fn tokens_carry_kinds_names_and_places() {
    let tokens = tokenize("from .a import b\nif x:\n  match = 1\n");
    let kinds = tokens.iter().map(|t| t.kind).collect::<Vec<_>>();
    assert_eq!(
        kinds,
        vec![
            TokenKindTag::From,
            TokenKindTag::Dot,
            TokenKindTag::Name,
            TokenKindTag::Import,
            TokenKindTag::Name,
            TokenKindTag::Newline,
            TokenKindTag::Other,
            TokenKindTag::Name,
            TokenKindTag::Colon,
            TokenKindTag::Newline,
            TokenKindTag::Indent,
            TokenKindTag::Name,
            TokenKindTag::Equal,
            TokenKindTag::Other,
            TokenKindTag::Newline,
            TokenKindTag::Dedent,
        ]
    );
    assert_eq!(tokens[2].name.as_deref(), Some("a"));
    assert_eq!(tokens[11].name.as_deref(), Some("match"));
    assert_eq!(tokens[3].name, None);
    assert_eq!((tokens[2].start, tokens[2].end), (6, 7));
}

#[test]
fn lexer_errors_are_passed_over() {
    let items = vec![
        Some((Tok::Class, 0, 5)),
        None,
        Some((Tok::Name { name: "A".to_string() }, 6, 7)),
        Some((Tok::Lambda, 8, 9)),
        Some((Tok::EndOfFile, 9, 9)),
    ];
    let tokens = collect_tokens(&items);
    let seen = tokens.iter().map(|t| (t.kind, t.name.as_deref(), t.start, t.end)).collect::<Vec<_>>();
    assert_eq!(
        seen,
        vec![
            (TokenKindTag::Class, None, 0, 5),
            (TokenKindTag::Name, Some("A"), 6, 7),
            (TokenKindTag::Other, None, 8, 9),
            (TokenKindTag::EndOfFile, None, 9, 9),
        ]
    );
    assert!(tokenize("?").iter().all(|t| t.kind == TokenKindTag::Newline));
}

#[test]
fn keys_name_classes_and_functions() {
    let module = read("class A:\n    def m(self): pass\n\ndef f(): pass\n");
    assert_eq!(class_key("pkg.mod", "A"), "pkg.mod::A");
    assert_eq!(callable_key("pkg.mod", &module.functions[0]), "pkg.mod::A::m@2:9");
    assert_eq!(callable_key("pkg.mod", &module.functions[1]), "pkg.mod::::f@4:5");
}
