use telepy_parser::annotations::annotation_is_required;
use telepy_parser::annotations::is_enum_class;
use telepy_parser::annotations::normalize_inline_whitespace;
use telepy_parser::annotations::normalize_type_head;
use telepy_parser::names::NameMap;
use telepy_parser::numbers::decimal_of;
use telepy_parser::numbers::parse_usize;
use telepy_parser::paths::order_import_roots;
use telepy_parser::paths::sort_paths;
use telepy_parser::sorting::key_of_components;
use telepy_parser::sorting::key_of_text;
use telepy_parser::text::has_char;
use telepy_parser::text::join_text;
use telepy_parser::text::split_filled;
use telepy_parser::text::split_last;
use telepy_parser::text::split_text;
use telepy_parser::text::starts_with;
use telepy_parser::text::tail_after;
use telepy_parser::text::trim_text;
use telepy_parser::text::white;
use telepy_parser::text::without_suffix;
use telepy_parser::typeshed::newest_first;

fn strings(items: &[&str]) -> Vec<String> {
    items.iter().map(|item| item.to_string()).collect()
}

#[test]
fn splitting_and_joining_undo_each_other() {
    for text in ["", "a", "a.b", ".a..b.", "..", "a.b.c"] {
        let parts = split_text(text, Some('.'));
        assert_eq!(parts, text.split('.').collect::<Vec<_>>());
        assert_eq!(join_text(&parts, "."), text);
    }
    let parts = strings(&["x", "", "yz"]);
    assert_eq!(split_text(&join_text(&parts, "."), Some('.')), parts);
}

#[test]
fn words_are_what_stands_between_white_space() {
    let text = " \ta\u{a0}b\u{2003} c\n\u{3000}d\u{85}";
    assert_eq!(split_filled(text, None), text.split_whitespace().collect::<Vec<_>>());
    assert_eq!(split_filled("/a//b/", Some('/')), vec!["a", "b"]);
    for code in 0..0x4000u32 {
        if let Some(c) = char::from_u32(code) {
            assert_eq!(white(c), c.is_whitespace(), "{code:x}");
        }
    }
}

#[test]
fn texts_are_cut_at_their_ends() {
    assert_eq!(trim_text("  a b \u{2028}"), "a b");
    assert_eq!(trim_text(" \n "), "");
    assert_eq!(split_last("a.b.c", '.'), Some(("a.b".to_string(), "c".to_string())));
    assert_eq!(split_last("abc", '.'), None);
    assert_eq!(tail_after("a.b.c", '.'), "c");
    assert_eq!(tail_after("abc", '.'), "abc");
    assert_eq!(without_suffix("model.pyi", ".pyi").as_deref(), Some("model"));
    assert_eq!(without_suffix("model.py", ".pyi"), None);
    assert_eq!(without_suffix("y", ".py"), None);
    assert!(starts_with("abc", "ab") && starts_with("abc", "") && !starts_with("ab", "abc"));
    assert!(has_char("a=b", '=') && !has_char("ab", '='));
}

#[test]
fn numbers_are_written_and_read() {
    for n in [0u128, 7, 10, 99, 100, 1234567890, u64::MAX as u128, u128::MAX] {
        assert_eq!(decimal_of(n), n.to_string());
    }
    for text in ["0", "007", "+5", "18446744073709551615", "18446744073709551616", "", "+", "-1", "1 ", "a", "٣"] {
        assert_eq!(parse_usize(text), text.parse::<usize>().ok(), "{text}");
    }
    assert_eq!(parse_usize(&decimal_of(usize::MAX as u128)), Some(usize::MAX));
}

#[test]
fn type_heads_end_before_arguments_and_alternatives() {
    for (raw, head) in [
        ("list[int]", "list"),
        ("str | None", "str"),
        (" pkg . Model ", "pkg.Model"),
        ("Field(default=1)", "Field"),
        ("a, b", "a"),
        ("<a, b>c", "a,bc"),
        ("x>|y", "x"),
        ("[int]", ""),
        ("", ""),
        ("a\tb\u{a0}c", "ab\u{a0}c"),
    ] {
        assert_eq!(normalize_type_head(raw), head, "{raw}");
    }
}

#[test]
fn white_space_is_normalized_once() {
    let line = normalize_inline_whitespace("  dict[\n  str,\tint ]  ");
    assert_eq!(line, "dict[ str, int ]");
    assert_eq!(normalize_inline_whitespace(&line), line);
    assert_eq!(normalize_inline_whitespace(" \n"), "");
}

#[test]
fn annotations_that_admit_none_are_not_required() {
    for (annotation, required) in [
        ("int", true),
        ("int | None", false),
        ("int |None", false),
        ("None | int", true),
        ("Optional[int]", false),
        ("typing.OPTIONAL [int]", false),
        ("Annotated[int, Field(default = NONE)]", false),
        ("int |\tNone", true),
        ("", true),
    ] {
        assert_eq!(annotation_is_required(annotation), required, "{annotation}");
    }
}

#[test]
fn enum_bases_are_told_by_their_last_part() {
    assert!(is_enum_class(&strings(&["str", "enum.Enum"])));
    for base in ["Enum", "a.b.IntEnum", "StrEnum", "Flag", "IntFlag"] {
        assert!(is_enum_class(&strings(&[base])), "{base}");
    }
    assert!(!is_enum_class(&strings(&["MyEnum", "enum", "Enum.x"])));
    assert!(!is_enum_class(&Vec::new()));
}

#[test]
fn paths_are_ordered_component_by_component() {
    let mut paths = strings(&[
        "/a.b", "/a/b", "/a", "/a-b/c", "/a/b/c", "/a b", "/", "x", "a/z", "..", "-b", "./x", ".", "",
        "../x", "...", "..a", ".a", "/..", "/-b", "/a/..", "/a/-b", "a/..", "./..", "../..", "!", "\u{e9}",
        "\u{ffff}", "\u{10000}",
    ]);
    let ordered = sort_paths(paths.clone());
    paths.sort_by(|x, y| std::path::Path::new(x).cmp(std::path::Path::new(y)));
    assert_eq!(ordered, paths);
    assert_eq!(sort_paths(strings(&["-b", ".."])), vec!["..", "-b"]);
    assert_eq!(sort_paths(strings(&["-b", "..", "./x", "/x"])), vec!["/x", "./x", "..", "-b"]);
    assert_eq!(key_of_components(&strings(&["a", "b"])), vec![1, 101, 1, 102]);
    assert_eq!(key_of_components(&strings(&["/", "..", "."])), vec![1, 1, 3, 1, 2]);
    assert_eq!(key_of_text("a/"), vec![98, 48]);
}

#[test]
fn import_roots_are_listed_once_each() {
    let roots = strings(&["/b", "/a", "/b", "/a/c", "/a"]);
    assert_eq!(order_import_roots(roots), vec!["/a", "/a/c", "/b"]);
    let roots = strings(&["/b", "/a/./c", "/a/b", "/a//c/."]);
    assert_eq!(order_import_roots(roots), vec!["/a/b", "/a/./c", "/b"]);
    assert_eq!(order_import_roots(strings(&["-b", "..", "-b/"])), vec!["..", "-b"]);
}

#[test]
fn snapshots_of_the_same_age_keep_their_order() {
    let found = vec![
        (5, "five".to_string()),
        (9, "nine".to_string()),
        (5, "other five".to_string()),
        (0, "zero".to_string()),
        (u64::MAX, "last".to_string()),
    ];
    assert_eq!(newest_first(found), vec!["last", "nine", "five", "other five", "zero"]);
}

#[test]
fn a_table_keeps_the_order_in_which_names_came() {
    let mut table: NameMap<u32> = NameMap::new();
    table.insert("b".to_string(), 1);
    table.insert("a".to_string(), 2);
    table.insert("b".to_string(), 3);
    assert_eq!(table.len(), 2);
    assert_eq!(table.key_at(0), "b");
    assert_eq!(*table.value_at(0), 3);
    assert_eq!(table.position("a"), Some(1));
    *table.value_at_mut(1) = 7;
    assert_eq!(table.get("a"), Some(&7));
    table.remove("b");
    assert!(!table.contains("b"));
    assert_eq!(table.get("b"), None);
    assert_eq!(table.position("a"), Some(0));
    table.remove("gone");
    assert_eq!(table.len(), 1);
}
