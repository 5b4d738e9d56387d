//! What requests and command lines ask for: each word its own thing.
use vstd::prelude::*;

use crate::args;
use crate::args::ArgsErrorView;
use crate::args::BenchmarkArgsView;
use crate::args::Flag;
use crate::args::QueryArgsView;
use crate::errors::QueryErrorView;
use crate::index::IndexView;
use crate::model::EdgeView;
use crate::model::HierarchyItemView;
use crate::model::MembersView;
use crate::model::ReferenceView;
use crate::numbers;
use crate::queries;
use crate::queries::QueryResultView;
use crate::render::RowView;
use crate::serve;
use crate::serve::AnswerView;
use crate::serve::RequestView;
use crate::text::Text;

verus! {

/// A tree as an answer, or why there is none.
pub open spec fn tree_or_error(result: Result<RowView, QueryErrorView>) -> AnswerView {
    match result {
        Ok(tree) => AnswerView::Tree(tree),
        Err(error) => AnswerView::Failed(error),
    }
}

/// A hierarchy as an answer, or why there is none.
pub open spec fn hierarchy_or_error(result: Result<QueryResultView, QueryErrorView>) -> AnswerView {
    match result {
        Ok(found) => AnswerView::Hierarchy(found),
        Err(error) => AnswerView::Failed(error),
    }
}

/// Members as an answer, or why there are none.
pub open spec fn members_or_error(result: Result<MembersView, QueryErrorView>) -> AnswerView {
    match result {
        Ok(members) => AnswerView::Members(members),
        Err(error) => AnswerView::Failed(error),
    }
}

/// Calls as an answer, or why there are none.
pub open spec fn calls_or_error(result: Result<Seq<EdgeView>, QueryErrorView>) -> AnswerView {
    match result {
        Ok(edges) => AnswerView::Calls(edges),
        Err(error) => AnswerView::Failed(error),
    }
}

/// A list as an answer, or why there is none.
pub open spec fn items_or_error(result: Result<Seq<HierarchyItemView>, QueryErrorView>) -> AnswerView {
    match result {
        Ok(items) => AnswerView::Items(items),
        Err(error) => AnswerView::Failed(error),
    }
}

/// A reference as an answer, or why there is none.
pub open spec fn reference_or_error(result: Result<ReferenceView, QueryErrorView>) -> AnswerView {
    match result {
        Ok(reference) => AnswerView::Reference(reference),
        Err(error) => AnswerView::Failed(error),
    }
}

proof fn lemma_actions()
    ensures
        "supertypes"@.len() == 10,
        "supertypes_tree"@.len() == 15,
        "subtypes"@.len() == 8,
        "subtypes_tree"@.len() == 13 && "subtypes_tree"@[0] == 's',
        "prewarm_full"@.len() == 12,
        "refresh"@.len() == 7,
        "class_members"@.len() == 13 && "class_members"@[0] == 'c',
        "resolve_class_fields"@.len() == 20,
        "resolve_callable_reference"@.len() == 26,
        "incoming_calls"@.len() == 14 && "incoming_calls"@[0] == 'i',
        "incoming_calls_tree"@.len() == 19 && "incoming_calls_tree"@[0] == 'i',
        "outgoing_calls"@.len() == 14 && "outgoing_calls"@[0] == 'o',
        "outgoing_calls_tree"@.len() == 19 && "outgoing_calls_tree"@[0] == 'o',
{
    reveal_strlit("supertypes");
    reveal_strlit("supertypes_tree");
    reveal_strlit("subtypes");
    reveal_strlit("subtypes_tree");
    reveal_strlit("prewarm_full");
    reveal_strlit("refresh");
    reveal_strlit("class_members");
    reveal_strlit("resolve_class_fields");
    reveal_strlit("resolve_callable_reference");
    reveal_strlit("incoming_calls");
    reveal_strlit("incoming_calls_tree");
    reveal_strlit("outgoing_calls");
    reveal_strlit("outgoing_calls_tree");
}

/// A request that asks for what a class inherits from or for its members is answered from the modules
/// read on demand, by the query of its name; one without a word asks for the hierarchy.
pub proof fn law_upward_requests_reach_their_queries(r: RequestView, lazy: IndexView, full: Option<IndexView>)
    ensures
        r.action.len() == 0 || r.action == "supertypes"@ ==> serve::answer_to(r, lazy, full) == hierarchy_or_error(
            queries::type_hierarchy(lazy, r.file, r.canonical, r.symbol_name),
        ),
        r.action == "supertypes_tree"@ ==> serve::answer_to(r, lazy, full) == tree_or_error(
            queries::supertypes_tree(lazy, r.file, r.canonical, r.symbol_name),
        ),
        r.action == "class_members"@ ==> serve::answer_to(r, lazy, full) == members_or_error(
            queries::class_members(lazy, r.file, r.canonical, r.symbol_name),
        ),
        r.action == "resolve_class_fields"@ ==> serve::answer_to(r, lazy, full) == members_or_error(
            queries::resolved_class_fields(lazy, r.file, r.canonical, r.symbol_name),
        ),
        r.action == "refresh"@ ==> serve::answer_to(r, lazy, full) == AnswerView::Done && serve::refreshes(r),
        r.action != "refresh"@ ==> !serve::refreshes(r),
{
    lemma_actions();
}

/// A request that asks for what inherits from a class or for calls is answered from the index of the
/// whole workspace, by the query of its name and with the depths and the position that it gives.
pub proof fn law_downward_requests_reach_their_queries(r: RequestView, lazy: IndexView, full: IndexView)
    ensures
        r.action == "subtypes"@ ==> serve::answer_to(r, lazy, Some(full)) == items_or_error(
            queries::subtypes(full, r.file, r.canonical, r.symbol_name),
        ),
        r.action == "subtypes_tree"@ ==> serve::answer_to(r, lazy, Some(full)) == tree_or_error(
            queries::subtypes_tree(
                full,
                r.file,
                r.canonical,
                r.symbol_name,
                r.max_depth,
                r.member_depth,
            ),
        ),
        r.action == "prewarm_full"@ ==> serve::answer_to(r, lazy, Some(full)) == AnswerView::Done,
        r.line is Some && r.col is Some && r.action == "resolve_callable_reference"@ ==> serve::answer_to(
            r,
            lazy,
            Some(full),
        ) == reference_or_error(queries::callable_reference(full, r.file, r.canonical, r.line->0, r.col->0)),
        r.line is Some && r.col is Some && r.action == "incoming_calls"@ ==> serve::answer_to(r, lazy, Some(full))
            == calls_or_error(
            queries::calls(full, r.file, r.canonical, r.symbol_name, r.line, r.col, true),
        ),
        r.line is Some && r.col is Some && r.action == "outgoing_calls"@ ==> serve::answer_to(r, lazy, Some(full))
            == calls_or_error(
            queries::calls(full, r.file, r.canonical, r.symbol_name, r.line, r.col, false),
        ),
        r.line is Some && r.col is Some && r.action == "incoming_calls_tree"@ ==> serve::answer_to(
            r,
            lazy,
            Some(full),
        ) == tree_or_error(
            queries::calls_tree(full, r.file, r.canonical, r.symbol_name, r.line, r.col, true),
        ),
        r.line is Some && r.col is Some && r.action == "outgoing_calls_tree"@ ==> serve::answer_to(
            r,
            lazy,
            Some(full),
        ) == tree_or_error(
            queries::calls_tree(full, r.file, r.canonical, r.symbol_name, r.line, r.col, false),
        ),
{
    lemma_actions();
}

/// Whether a word asks for something that depends on the whole workspace.
pub open spec fn is_downward(word: Text) -> bool {
    word == "subtypes"@ || word == "subtypes_tree"@ || word == "prewarm_full"@ || is_positioned(word)
}

/// Whether a word asks for something at a position.
pub open spec fn is_positioned(word: Text) -> bool {
    word == "resolve_callable_reference"@ || word == "incoming_calls"@ || word == "incoming_calls_tree"@ || word
        == "outgoing_calls"@ || word == "outgoing_calls_tree"@
}

/// Whether a word asks for something that the modules read on demand suffice for.
pub open spec fn is_upward(word: Text) -> bool {
    word.len() == 0 || word == "supertypes"@ || word == "supertypes_tree"@ || word == "class_members"@ || word
        == "resolve_class_fields"@ || word == "refresh"@
}

/// A request is refused exactly where its word is none of those known, or where it asks for something
/// at a position and does not give one. The index of the whole workspace is asked for exactly where
/// the request is not refused, depends on it and it is not there.
pub proof fn law_requests_are_refused_or_answered(r: RequestView, lazy: IndexView, full: Option<IndexView>)
    ensures
        serve::answer_to(r, lazy, full) is Refused <==> !(is_upward(r.action) || is_downward(r.action)) || (
        is_positioned(r.action) && (r.line is None || r.col is None)),
        serve::answer_to(r, lazy, full) is NeedsFull <==> is_downward(r.action) && full is None && !(is_positioned(
            r.action,
        ) && (r.line is None || r.col is None)),
{
    lemma_actions();
}

proof fn lemma_flags()
    ensures
        "--root"@.len() == 6 && "--root"@[2] == 'r',
        "--file"@.len() == 6 && "--file"@[2] == 'f',
        "--class"@.len() == 7 && "--class"@[2] == 'c',
        "--debug"@.len() == 7 && "--debug"@[2] == 'd',
        "--pretty"@.len() == 8,
        "--symbol_name"@.len() == 13,
        "--iterations"@.len() == 12,
        "--warmups"@.len() == 9,
{
    reveal_strlit("--root");
    reveal_strlit("--file");
    reveal_strlit("--class");
    reveal_strlit("--debug");
    reveal_strlit("--pretty");
    reveal_strlit("--symbol_name");
    reveal_strlit("--iterations");
    reveal_strlit("--warmups");
}

proof fn lemma_query_args(words: Seq<Text>, more: Seq<Text>, given: QueryArgsView)
    ensures
        args::query_args_from(words, given) matches Ok(so_far) ==> args::query_args_from(words + more, given)
            == args::query_args_from(more, so_far),
    decreases words.len(),
{
    let all = words + more;
    if words.len() == 0 {
        assert(all =~= more);
    } else if args::query_args_from(words, given) is Ok {
        if words[0] == "--pretty"@ {
            lemma_query_args(words.skip(1), more, QueryArgsView { pretty: true, ..given });
            assert(all.skip(1) =~= words.skip(1) + more);
        } else if words[0] == "--debug"@ {
            lemma_query_args(words.skip(1), more, QueryArgsView { debug: true, ..given });
            assert(all.skip(1) =~= words.skip(1) + more);
        } else if let Some(flag) = args::query_flag(words[0]) {
            lemma_query_args(words.skip(2), more, args::with_text(given, flag, words[1]));
            assert(all.skip(2) =~= words.skip(2) + more);
        }
    }
}

/// Each option of `query`, behind options that are well-formed, sets its own part and leaves the others
/// as they were; a word that is no option, and an option that lacks its value, are reported.
pub proof fn law_query_options_set_their_parts(words: Seq<Text>, value: Text)
    ensures
        args::query_args(Seq::empty()) == Ok::<QueryArgsView, ArgsErrorView>(
            QueryArgsView { root: None, file: None, class_name: None, pretty: false, debug: false },
        ),
        args::query_args(words) matches Ok(so_far) ==> {
            &&& args::query_args(words + seq!["--root"@, value]) == Ok::<QueryArgsView, ArgsErrorView>(
                QueryArgsView { root: Some(value), ..so_far },
            )
            &&& args::query_args(words + seq!["--file"@, value]) == Ok::<QueryArgsView, ArgsErrorView>(
                QueryArgsView { file: Some(value), ..so_far },
            )
            &&& args::query_args(words + seq!["--class"@, value]) == Ok::<QueryArgsView, ArgsErrorView>(
                QueryArgsView { class_name: Some(value), ..so_far },
            )
            &&& args::query_args(words + seq!["--symbol_name"@, value]) == Ok::<QueryArgsView, ArgsErrorView>(
                QueryArgsView { class_name: Some(value), ..so_far },
            )
            &&& args::query_args(words + seq!["--pretty"@]) == Ok::<QueryArgsView, ArgsErrorView>(
                QueryArgsView { pretty: true, ..so_far },
            )
            &&& args::query_args(words + seq!["--debug"@]) == Ok::<QueryArgsView, ArgsErrorView>(
                QueryArgsView { debug: true, ..so_far },
            )
            &&& args::query_args(words + seq!["--root"@]) == Err::<QueryArgsView, ArgsErrorView>(
                ArgsErrorView::MissingValue(Flag::Root),
            )
            &&& args::query_args(words + seq!["--file"@]) == Err::<QueryArgsView, ArgsErrorView>(
                ArgsErrorView::MissingValue(Flag::File),
            )
            &&& args::query_args(words + seq!["--class"@]) == Err::<QueryArgsView, ArgsErrorView>(
                ArgsErrorView::MissingValue(Flag::Class),
            )
            &&& value != "--root"@ && value != "--file"@ && value != "--class"@ && value != "--symbol_name"@ && value
                != "--pretty"@ && value != "--debug"@ ==> args::query_args(words + seq![value]) == Err::<
                QueryArgsView,
                ArgsErrorView,
            >(ArgsErrorView::Unknown(value))
        },
{
    let start = QueryArgsView { root: None, file: None, class_name: None, pretty: false, debug: false };
    lemma_flags();
    lemma_query_args(words, seq!["--root"@, value], start);
    lemma_query_args(words, seq!["--file"@, value], start);
    lemma_query_args(words, seq!["--class"@, value], start);
    lemma_query_args(words, seq!["--symbol_name"@, value], start);
    lemma_query_args(words, seq!["--pretty"@], start);
    lemma_query_args(words, seq!["--debug"@], start);
    lemma_query_args(words, seq!["--root"@], start);
    lemma_query_args(words, seq!["--file"@], start);
    lemma_query_args(words, seq!["--class"@], start);
    lemma_query_args(words, seq![value], start);
    reveal_with_fuel(args::query_args_from, 2);
}

proof fn lemma_benchmark_args(words: Seq<Text>, more: Seq<Text>, given: BenchmarkArgsView)
    ensures
        args::benchmark_args_from(words, given) matches Ok(so_far) ==> args::benchmark_args_from(words + more, given)
            == args::benchmark_args_from(more, so_far),
    decreases words.len(),
{
    let all = words + more;
    if words.len() == 0 {
        assert(all =~= more);
    } else if args::benchmark_args_from(words, given) is Ok {
        if words[0] == "--pretty"@ {
            lemma_benchmark_args(words.skip(1), more, BenchmarkArgsView { pretty: true, ..given });
            assert(all.skip(1) =~= words.skip(1) + more);
        } else if let Some(flag) = args::benchmark_flag(words[0]) {
            if let Ok(next) = args::with_value(given, flag, words[1]) {
                lemma_benchmark_args(words.skip(2), more, next);
                assert(all.skip(2) =~= words.skip(2) + more);
            }
        }
    }
}

/// Each option of `benchmark`, behind options that are well-formed, sets its own part and leaves the
/// others as they were; a count that is no number is reported.
pub proof fn law_benchmark_options_set_their_parts(words: Seq<Text>, value: Text)
    ensures
        args::benchmark_args(words) matches Ok(so_far) ==> {
            &&& args::benchmark_args(words + seq!["--root"@, value]) == Ok::<BenchmarkArgsView, ArgsErrorView>(
                BenchmarkArgsView { root: Some(value), ..so_far },
            )
            &&& args::benchmark_args(words + seq!["--file"@, value]) == Ok::<BenchmarkArgsView, ArgsErrorView>(
                BenchmarkArgsView { file: Some(value), ..so_far },
            )
            &&& args::benchmark_args(words + seq!["--class"@, value]) == Ok::<BenchmarkArgsView, ArgsErrorView>(
                BenchmarkArgsView { class_name: Some(value), ..so_far },
            )
            &&& args::benchmark_args(words + seq!["--pretty"@]) == Ok::<BenchmarkArgsView, ArgsErrorView>(
                BenchmarkArgsView { pretty: true, ..so_far },
            )
            &&& args::benchmark_args(words + seq!["--iterations"@, value]) == (match numbers::usize_in(value) {
                Some(n) => Ok(BenchmarkArgsView { iterations: n, ..so_far }),
                None => Err(ArgsErrorView::InvalidInteger(Flag::Iterations)),
            })
            &&& args::benchmark_args(words + seq!["--warmups"@, value]) == (match numbers::usize_in(value) {
                Some(n) => Ok(BenchmarkArgsView { warmups: n, ..so_far }),
                None => Err(ArgsErrorView::InvalidInteger(Flag::Warmups)),
            })
        },
{
    let start = BenchmarkArgsView {
        root: None,
        file: None,
        class_name: None,
        pretty: false,
        iterations: 100,
        warmups: 10,
    };
    lemma_flags();
    lemma_benchmark_args(words, seq!["--root"@, value], start);
    lemma_benchmark_args(words, seq!["--file"@, value], start);
    lemma_benchmark_args(words, seq!["--class"@, value], start);
    lemma_benchmark_args(words, seq!["--pretty"@], start);
    lemma_benchmark_args(words, seq!["--iterations"@, value], start);
    lemma_benchmark_args(words, seq!["--warmups"@, value], start);
    reveal_with_fuel(args::benchmark_args_from, 2);
}

proof fn lemma_serve_root(words: Seq<Text>, more: Seq<Text>, given: Option<Text>)
    ensures
        args::serve_root_from(words, given) matches Ok(so_far) ==> args::serve_root_from(words + more, given)
            == args::serve_root_from(more, so_far),
    decreases words.len(),
{
    let all = words + more;
    if words.len() == 0 {
        assert(all =~= more);
    } else if args::serve_root_from(words, given) is Ok {
        lemma_serve_root(words.skip(2), more, Some(words[1]));
        assert(all.skip(2) =~= words.skip(2) + more);
    }
}

/// The last root given to `serve` is the one that is served; any other option is reported.
pub proof fn law_the_last_root_is_served(words: Seq<Text>, value: Text)
    ensures
        args::serve_root_from(words, None) is Ok ==> args::serve_root_from(words + seq!["--root"@, value], None) == Ok::<
            Option<Text>,
            ArgsErrorView,
        >(Some(value)),
        args::serve_root_from(words, None) is Ok && value != "--root"@ ==> args::serve_root_from(
            words + seq![value],
            None,
        ) == Err::<Option<Text>, ArgsErrorView>(ArgsErrorView::Unknown(value)),
{
    lemma_serve_root(words, seq!["--root"@, value], None);
    lemma_serve_root(words, seq![value], None);
    reveal_with_fuel(args::serve_root_from, 2);
}

/// A reply says which request it answers and what the result is: two replies that are the same answer the
/// same request with the same result.
pub proof fn law_replies_tell_results_apart(a: u64, x: Text, b: u64, y: Text)
    requires
        serve::success_message(a, x) == serve::success_message(b, y),
    ensures
        a == b,
        x == y,
{
    let start = "{\"id\":"@;
    let middle = ",\"result\":"@;
    let m = numbers::decimal(a as nat);
    let n = numbers::decimal(b as nat);
    let s = serve::success_message(a, x);
    let t = serve::success_message(b, y);
    reveal_strlit("{\"id\":");
    reveal_strlit(",\"result\":");
    reveal_strlit("}");
    numbers::lemma_decimal_holds_digits(a as nat, ',');
    numbers::lemma_decimal_holds_digits(b as nat, ',');
    let k = start.len() as int;
    assert(s[k + m.len()] == ',' && t[k + n.len()] == ',');
    if m.len() < n.len() {
        assert(t[k + m.len()] == n[m.len() as int]);
        assert(n.contains(n[m.len() as int]));
    } else if n.len() < m.len() {
        assert(s[k + n.len()] == m[n.len() as int]);
        assert(m.contains(m[n.len() as int]));
    }
    assert(m =~= s.subrange(k, k + m.len()));
    assert(n =~= t.subrange(k, k + n.len()));
    numbers::law_decimal_tells_numbers_apart(a as nat, b as nat);
    let from = k + m.len() + middle.len();
    assert(x =~= s.subrange(from, s.len() - 1));
    assert(y =~= t.subrange(from, t.len() - 1));
}

} // verus!
