use telepy_parser::errors::Fault;
use telepy_parser::errors::QueryError;
use telepy_parser::index::WorkspaceIndex;
use telepy_parser::parser::parse_module;
use telepy_parser::relations::link_workspace;
use telepy_parser::serve::action_named;
use telepy_parser::serve::answer_request;
use telepy_parser::serve::check_request;
use telepy_parser::serve::done_result;
use telepy_parser::serve::error_response;
use telepy_parser::serve::is_blank_line;
use telepy_parser::serve::response_from_result;
use telepy_parser::serve::success_response;
use telepy_parser::serve::unwritten_response;
use telepy_parser::serve::wants_full;
use telepy_parser::serve::wrap_items;
use telepy_parser::serve::Action;
use telepy_parser::serve::Answer;
use telepy_parser::serve::ServeRequest;
use telepy_parser::workspace::build_lazy_hierarchy_index;
use telepy_parser::workspace::build_workspace_index;

const SOURCE: &[u8] = b"class A:\n    def m(self):\n        f()\n\ndef f():\n    pass\n\nclass B(A):\n    pass\n";

fn request(action: &str, symbol: &str, at: Option<(usize, usize)>) -> ServeRequest {
    ServeRequest {
        id: 7,
        action: action.to_string(),
        file: "/p/a.py".to_string(),
        symbol_name: symbol.to_string(),
        line: at.map(|(line, _)| line),
        col: at.map(|(_, col)| col),
        max_depth: None,
        member_depth: None,
    }
}

fn lazy_index() -> WorkspaceIndex {
    let mut index = build_lazy_hierarchy_index("/p".to_string(), Vec::new());
    index.add_workspace_module(parse_module("/p", "/p/a.py", SOURCE).unwrap());
    index.mark_absent("builtins".to_string());
    index
}

fn full_index() -> WorkspaceIndex {
    let module = parse_module("/p", "/p/a.py", SOURCE).unwrap();
    let mut index = build_workspace_index("/p".to_string(), Vec::new(), vec![module]);
    index.mark_absent("builtins".to_string());
    link_workspace(&mut index).unwrap();
    index
}

#[test]
fn replies_are_json_on_one_line() {
    assert_eq!(error_response(None, "bad"), "{\"error\":\"bad\"}");
    assert_eq!(
        error_response(Some(12), "a \"b\" \\ \n\t\r\u{8}\u{c}\u{1}\u{1f}\u{7f}\u{e9}"),
        "{\"id\":12,\"error\":\"a \\\"b\\\" \\\\ \\n\\t\\r\\b\\f\\u0001\\u001f\u{7f}\u{e9}\"}"
    );
    assert_eq!(success_response(0, "[1,2]"), "{\"id\":0,\"result\":[1,2]}");
    assert_eq!(
        response_from_result(u64::MAX, &Ok("null".to_string())),
        "{\"id\":18446744073709551615,\"result\":null}"
    );
    assert_eq!(
        response_from_result(3, &Err("no\nluck".to_string())),
        "{\"id\":3,\"error\":\"no\\nluck\"}"
    );
    assert_eq!(wrap_items("[]"), "{\"items\":[]}");
}

#[test]
fn what_is_done_is_answered_in_one_word() {
    assert_eq!(done_result(), r#"{"ok":true}"#);
    assert_eq!(
        response_from_result(7, &Ok(done_result())),
        r#"{"id":7,"result":{"ok":true}}"#
    );
    assert_eq!(unwritten_response(), r#"{"error":"internal serialization failure"}"#);
}

#[test]
fn blank_lines_hold_no_request() {
    for line in ["", " ", "\t \r", "\u{a0}\u{2003}"] {
        assert!(is_blank_line(line), "{line:?}");
    }
    for line in ["{}", " x", "\u{200b}"] {
        assert!(!is_blank_line(line), "{line:?}");
    }
}

#[test]
fn different_errors_have_different_replies() {
    let texts = ["\\n", "\n", "\\", "\\\\", "\"", "\\\"", "u0001", "\u{1}", ""];
    for (i, a) in texts.iter().enumerate() {
        for (j, b) in texts.iter().enumerate() {
            assert_eq!(error_response(None, a) == error_response(None, b), i == j);
        }
        assert!(!error_response(Some(1), a).contains('\n'));
    }
}

#[test]
fn actions_have_names_and_need_an_index() {
    for (word, action, full) in [
        ("", Action::Supertypes, false),
        ("supertypes", Action::Supertypes, false),
        ("supertypes_tree", Action::SupertypesTree, false),
        ("subtypes", Action::Subtypes, true),
        ("subtypes_tree", Action::SubtypesTree, true),
        ("prewarm_full", Action::PrewarmFull, true),
        ("refresh", Action::Refresh, false),
        ("class_members", Action::ClassMembers, false),
        ("resolve_class_fields", Action::ResolveClassFields, false),
        ("resolve_callable_reference", Action::ResolveCallableReference, true),
        ("incoming_calls", Action::IncomingCalls, true),
        ("incoming_calls_tree", Action::IncomingCallsTree, true),
        ("outgoing_calls", Action::OutgoingCalls, true),
        ("outgoing_calls_tree", Action::OutgoingCallsTree, true),
    ] {
        assert_eq!(action_named(word), Some(action), "{word}");
        assert_eq!(wants_full(action), full, "{word}");
    }
    assert_eq!(action_named("Subtypes"), None);
}

#[test]
fn requests_that_are_wrong_are_refused() {
    assert_eq!(check_request(&request("jump", "", None)).unwrap_err(), "unknown action: jump");
    assert_eq!(
        check_request(&request("incoming_calls", "f", None)).unwrap_err(),
        "missing 'line' for call query"
    );
    let mut half = request("outgoing_calls_tree", "f", None);
    half.line = Some(1);
    assert_eq!(check_request(&half).unwrap_err(), "missing 'col' for call query");
    assert_eq!(
        check_request(&request("resolve_callable_reference", "", None)).unwrap_err(),
        "missing 'line' for callable reference query"
    );
    half.action = "resolve_callable_reference".to_string();
    assert_eq!(
        check_request(&half).unwrap_err(),
        "missing 'col' for callable reference query"
    );
    assert_eq!(check_request(&request("subtypes", "", None)), Ok(Action::Subtypes));
}

#[test]
fn a_refusal_needs_no_index() {
    let mut lazy = build_lazy_hierarchy_index("/p".to_string(), Vec::new());
    let mut none = None;
    let mut some = Some(full_index());
    let wrong = request("incoming_calls", "f", None);
    for full in [&mut none, &mut some] {
        match answer_request(&wrong, &None, &mut lazy, full) {
            Answer::Refused(message) => assert_eq!(message, "missing 'line' for call query"),
            other => panic!("{other:?}"),
        }
    }
}

#[test]
fn the_index_on_demand_answers_what_needs_no_other() {
    let mut lazy = lazy_index();
    let mut full = None;
    match answer_request(&request("", "B", None), &None, &mut lazy, &mut full) {
        Answer::Hierarchy(result) => {
            assert_eq!(result.class_name, "B");
            assert_eq!(result.hierarchy.ancestors[0].name, "A");
        }
        other => panic!("{other:?}"),
    }
    match answer_request(&request("supertypes_tree", "B", None), &None, &mut lazy, &mut full) {
        Answer::Tree(tree) => assert_eq!(tree.tree.children[0].name, "A"),
        other => panic!("{other:?}"),
    }
    match answer_request(&request("class_members", "A", None), &None, &mut lazy, &mut full) {
        Answer::Members(members) => assert_eq!(members.methods[0].name, "m"),
        other => panic!("{other:?}"),
    }
    match answer_request(&request("resolve_class_fields", "A[int]", None), &None, &mut lazy, &mut full) {
        Answer::Members(members) => assert_eq!(members.class_name, "A"),
        other => panic!("{other:?}"),
    }
    match answer_request(&request("class_members", "Z", None), &None, &mut lazy, &mut full) {
        Answer::Failed(error) => assert_eq!(error.message(), "class 'a.Z' is not in the index"),
        other => panic!("{other:?}"),
    }
    let mut elsewhere = request("class_members", "A", None);
    elsewhere.file = "/p/b.py".to_string();
    match answer_request(&elsewhere, &None, &mut lazy, &mut full) {
        Answer::Failed(QueryError::Unfollowed(Fault::NeedsModule(name))) => assert_eq!(name, "b"),
        other => panic!("{other:?}"),
    }
}

#[test]
fn the_index_of_the_workspace_is_asked_for_and_then_answers() {
    let mut lazy = lazy_index();
    let mut full = None;
    let calls = request("outgoing_calls", "m", Some((2, 9)));
    assert!(matches!(answer_request(&calls, &None, &mut lazy, &mut full), Answer::NeedsFull));
    assert!(full.is_none());
    full = Some(full_index());
    match answer_request(&calls, &None, &mut lazy, &mut full) {
        Answer::Calls(edges) => assert_eq!(edges[0].item.name, "f"),
        other => panic!("{other:?}"),
    }
    match answer_request(&request("incoming_calls", "f", Some((5, 5))), &None, &mut lazy, &mut full) {
        Answer::Calls(edges) => assert_eq!(edges[0].item.name, "m"),
        other => panic!("{other:?}"),
    }
    match answer_request(&request("outgoing_calls_tree", "m", Some((2, 9))), &None, &mut lazy, &mut full) {
        Answer::Tree(tree) => assert_eq!(tree.tree.children[0].target_line, 5),
        other => panic!("{other:?}"),
    }
    match answer_request(&request("incoming_calls_tree", "f", Some((5, 5))), &None, &mut lazy, &mut full) {
        Answer::Tree(tree) => assert_eq!(tree.tree.children[0].line, 3),
        other => panic!("{other:?}"),
    }
    match answer_request(&request("resolve_callable_reference", "", Some((3, 9))), &None, &mut lazy, &mut full) {
        Answer::Reference(reference) => assert_eq!((reference.name.as_str(), reference.line), ("f", 5)),
        other => panic!("{other:?}"),
    }
    match answer_request(&request("subtypes", "A", None), &None, &mut lazy, &mut full) {
        Answer::Items(items) => assert_eq!(items[0].name, "B"),
        other => panic!("{other:?}"),
    }
    let mut shallow = request("subtypes_tree", "A", None);
    shallow.max_depth = Some(1);
    match answer_request(&shallow, &None, &mut lazy, &mut full) {
        Answer::Tree(tree) => assert!(tree.tree.truncated),
        other => panic!("{other:?}"),
    }
    assert!(matches!(
        answer_request(&request("prewarm_full", "", None), &None, &mut lazy, &mut full),
        Answer::Done
    ));
}

#[test]
fn a_refresh_forgets_the_file_and_the_workspace() {
    let mut lazy = lazy_index();
    let mut full = Some(full_index());
    let answer = answer_request(&request("refresh", "", None), &None, &mut lazy, &mut full);
    assert!(matches!(answer, Answer::Done));
    assert!(full.is_none());
    assert!(matches!(lazy.get_module("a"), Err(Fault::NeedsModule(_))));
}
