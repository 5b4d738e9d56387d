//! Answering requests: what each asks for, which index it needs, and how replies are written.
use vstd::prelude::*;

use crate::errors::QueryError;
use crate::errors::QueryErrorView;
use crate::index;
use crate::index::evict_module_file;
use crate::index::IndexView;
use crate::index::WorkspaceIndex;
use crate::model::CallHierarchyEdge;
use crate::model::ClassMembersResult;
use crate::model::EdgeView;
use crate::model::HierarchyItem;
use crate::model::HierarchyItemView;
use crate::model::MembersView;
use crate::model::ReferenceView;
use crate::model::ResolvedCallableReference;
use crate::numbers;
use crate::numbers::decimal_of;
use crate::paths;
use crate::queries;
use crate::queries::query_class_members;
use crate::queries::query_incoming_calls;
use crate::queries::query_incoming_calls_tree;
use crate::queries::query_outgoing_calls;
use crate::queries::query_outgoing_calls_tree;
use crate::queries::query_resolved_callable_reference;
use crate::queries::query_resolved_class_fields;
use crate::queries::query_subtypes;
use crate::queries::query_subtypes_tree_limited;
use crate::queries::query_supertypes_tree;
use crate::queries::query_type_hierarchy;
use crate::queries::QueryResult;
use crate::queries::QueryResultView;
use crate::queries::RenderTreeResult;
use crate::render::RowView;
use crate::text;
use crate::text::cat;
use crate::text::cat3;
use crate::text::same;
use crate::text::trim_text;
use crate::text::Text;

verus! {

/// The error of `serde_json`; nothing is known of it but that it is a type.
#[verifier::external_type_specification]
#[verifier::external_body]
pub struct ExJsonError(serde_json::Error);

/// A hexadecimal digit, in lower case.
pub open spec fn hex(d: int) -> char {
    if d < 10 {
        ('0' as u32 + d) as char
    } else {
        ('a' as u32 + d - 10) as char
    }
}

/// A character inside a JSON string: quotation marks, backslashes and control characters are
/// escaped, all others stand for themselves.
pub open spec fn json_char(c: char) -> Text {
    if c == '"' {
        seq!['\\', '"']
    } else if c == '\\' {
        seq!['\\', '\\']
    } else if c == '\u{8}' {
        seq!['\\', 'b']
    } else if c == '\t' {
        seq!['\\', 't']
    } else if c == '\n' {
        seq!['\\', 'n']
    } else if c == '\u{c}' {
        seq!['\\', 'f']
    } else if c == '\r' {
        seq!['\\', 'r']
    } else if (c as u32) < 32 {
        seq!['\\', 'u', '0', '0', hex(c as u32 as int / 16), hex(c as u32 as int % 16)]
    } else {
        seq![c]
    }
}

/// The characters of a text inside a JSON string.
pub open spec fn json_chars(s: Text) -> Text
    decreases s.len(),
{
    if s.len() == 0 {
        Seq::empty()
    } else {
        json_chars(s.drop_last()) + json_char(s.last())
    }
}

/// A text as a JSON string.
pub open spec fn json_string(s: Text) -> Text {
    seq!['"'] + json_chars(s) + seq!['"']
}

/// `serde_json::to_string` of a `str`: the JSON string of the text. It fails for types whose
/// serialisation fails, which that of a `str` never does.
#[verifier::external_body]
fn to_json(text: &str) -> (json: Result<String, serde_json::Error>)
    ensures
        json is Ok,
        json matches Ok(string) ==> string@ == json_string(text@),
{
    serde_json::to_string(text)
}

/// A reply that reports an error.
pub open spec fn error_message(id: Option<u64>, error: Text) -> Text {
    match id {
        Some(id) => "{\"id\":"@ + numbers::decimal(id as nat) + ",\"error\":"@ + json_string(error)
            + "}"@,
        None => "{\"error\":"@ + json_string(error) + "}"@,
    }
}

/// A reply that carries a result, given as JSON.
pub open spec fn success_message(id: u64, json: Text) -> Text {
    "{\"id\":"@ + numbers::decimal(id as nat) + ",\"result\":"@ + json + "}"@
}

/// A reply that reports an error. The request that it answers has no number where it could not
/// be read.
pub fn error_response(id: Option<u64>, error: &str) -> (reply: String)
    ensures
        reply@ == error_message(id, error@),
{
    let quoted = match to_json(error) {
        Ok(quoted) => quoted,
        Err(_) => {
            return unwritten_response();
        },
    };
    match id {
        Some(id) => {
            let number = decimal_of(id as u128);
            let head = cat3("{\"id\":", number.as_str(), ",\"error\":");
            cat3(head.as_str(), quoted.as_str(), "}")
        },
        None => cat3("{\"error\":", quoted.as_str(), "}"),
    }
}

/// A reply that carries a result, given as JSON.
pub fn success_response(id: u64, json: &str) -> (reply: String)
    ensures
        reply@ == success_message(id, json@),
{
    let number = decimal_of(id as u128);
    let head = cat3("{\"id\":", number.as_str(), ",\"result\":");
    cat3(head.as_str(), json, "}")
}

/// The reply to a request: its result, or why there is none.
pub fn response_from_result(id: u64, result: &Result<String, String>) -> (reply: String)
    ensures
        match result {
            Ok(json) => reply@ == success_message(id, json@),
            Err(error) => reply@ == error_message(Some(id), error@),
        },
{
    match result {
        Ok(json) => success_response(id, json.as_str()),
        Err(error) => error_response(Some(id), error.as_str()),
    }
}

/// A list as the result of a request, given as JSON.
pub open spec fn items_json(list: Text) -> Text {
    "{\"items\":"@ + list + "}"@
}

/// A list as the result of a request, given as JSON.
pub fn wrap_items(list: &str) -> (json: String)
    ensures
        json@ == items_json(list@),
{
    cat3("{\"items\":", list, "}")
}

/// The result of a request that asks for nothing but that something be done.
pub open spec fn done_json() -> Text {
    "{\"ok\":true}"@
}

/// The result of a request that asks for nothing but that something be done.
pub fn done_result() -> (json: String)
    ensures
        json@ == done_json(),
{
    "{\"ok\":true}".to_owned()
}

/// What is sent where a message cannot be written as JSON.
pub open spec fn unwritten_message() -> Text {
    "{\"error\":\"internal serialization failure\"}"@
}

/// What is sent where a message cannot be written as JSON.
pub fn unwritten_response() -> (reply: String)
    ensures
        reply@ == unwritten_message(),
{
    "{\"error\":\"internal serialization failure\"}".to_owned()
}

/// Whether a line holds no request: nothing, or white space only.
pub fn is_blank_line(line: &str) -> (blank: bool)
    ensures
        blank == (text::trimmed(line@).len() == 0),
{
    let rest = trim_text(line);
    proof {
        reveal_strlit("");
    }
    assert(rest@.len() == 0 ==> rest@ =~= ""@);
    same(rest.as_str(), "")
}

/// A request.
#[derive(Debug)]
pub struct ServeRequest {
    pub id: u64,
    pub action: String,
    pub file: String,
    pub symbol_name: String,
    pub line: Option<usize>,
    pub col: Option<usize>,
    pub max_depth: Option<usize>,
    pub member_depth: Option<usize>,
}

/// What a request asks for.
#[derive(Debug, Clone, Copy, PartialEq, Eq, Structural)]
pub enum Action {
    Supertypes,
    SupertypesTree,
    Subtypes,
    SubtypesTree,
    PrewarmFull,
    Refresh,
    ClassMembers,
    ResolveClassFields,
    ResolveCallableReference,
    IncomingCalls,
    IncomingCallsTree,
    OutgoingCalls,
    OutgoingCallsTree,
}

/// What a word asks for. Without a word, the supertypes are asked for.
pub open spec fn action(word: Text) -> Option<Action> {
    if word.len() == 0 || word == "supertypes"@ {
        Some(Action::Supertypes)
    } else if word == "supertypes_tree"@ {
        Some(Action::SupertypesTree)
    } else if word == "subtypes"@ {
        Some(Action::Subtypes)
    } else if word == "subtypes_tree"@ {
        Some(Action::SubtypesTree)
    } else if word == "prewarm_full"@ {
        Some(Action::PrewarmFull)
    } else if word == "refresh"@ {
        Some(Action::Refresh)
    } else if word == "class_members"@ {
        Some(Action::ClassMembers)
    } else if word == "resolve_class_fields"@ {
        Some(Action::ResolveClassFields)
    } else if word == "resolve_callable_reference"@ {
        Some(Action::ResolveCallableReference)
    } else if word == "incoming_calls"@ {
        Some(Action::IncomingCalls)
    } else if word == "incoming_calls_tree"@ {
        Some(Action::IncomingCallsTree)
    } else if word == "outgoing_calls"@ {
        Some(Action::OutgoingCalls)
    } else if word == "outgoing_calls_tree"@ {
        Some(Action::OutgoingCallsTree)
    } else {
        None
    }
}

/// What a word asks for.
pub fn action_named(word: &str) -> (r: Option<Action>)
    ensures
        r == action(word@),
{
    if word.is_empty() || same(word, "supertypes") {
        Some(Action::Supertypes)
    } else if same(word, "supertypes_tree") {
        Some(Action::SupertypesTree)
    } else if same(word, "subtypes") {
        Some(Action::Subtypes)
    } else if same(word, "subtypes_tree") {
        Some(Action::SubtypesTree)
    } else if same(word, "prewarm_full") {
        Some(Action::PrewarmFull)
    } else if same(word, "refresh") {
        Some(Action::Refresh)
    } else if same(word, "class_members") {
        Some(Action::ClassMembers)
    } else if same(word, "resolve_class_fields") {
        Some(Action::ResolveClassFields)
    } else if same(word, "resolve_callable_reference") {
        Some(Action::ResolveCallableReference)
    } else if same(word, "incoming_calls") {
        Some(Action::IncomingCalls)
    } else if same(word, "incoming_calls_tree") {
        Some(Action::IncomingCallsTree)
    } else if same(word, "outgoing_calls") {
        Some(Action::OutgoingCalls)
    } else if same(word, "outgoing_calls_tree") {
        Some(Action::OutgoingCallsTree)
    } else {
        None
    }
}

/// Whether an action needs a position.
pub open spec fn needs_position(action: Action) -> bool {
    match action {
        Action::ResolveCallableReference => true,
        Action::IncomingCalls => true,
        Action::IncomingCallsTree => true,
        Action::OutgoingCalls => true,
        Action::OutgoingCallsTree => true,
        _ => false,
    }
}

/// Whether an action needs the index of the whole workspace.
pub open spec fn needs_full(action: Action) -> bool {
    needs_position(action) || action == Action::Subtypes || action == Action::SubtypesTree || action
        == Action::PrewarmFull
}

/// What a missing part of a position is reported as.
pub open spec fn missing_part(action: Action, part: Text) -> Text {
    "missing '"@ + part + (if action == Action::ResolveCallableReference {
        "' for callable reference query"@
    } else {
        "' for call query"@
    })
}

/// Why a request is refused before any index is asked: its action is unknown, or a part of the
/// position is missing. Else, what it asks for.
pub open spec fn checked(word: Text, line: Option<usize>, col: Option<usize>) -> Result<Action, Text> {
    match action(word) {
        None => Err("unknown action: "@ + word),
        Some(found) => if needs_position(found) && line is None {
            Err(missing_part(found, "line"@))
        } else if needs_position(found) && col is None {
            Err(missing_part(found, "col"@))
        } else {
            Ok(found)
        },
    }
}

/// Whether an action needs a position.
fn wants_position(action: Action) -> (r: bool)
    ensures
        r == needs_position(action),
{
    match action {
        Action::ResolveCallableReference => true,
        Action::IncomingCalls => true,
        Action::IncomingCallsTree => true,
        Action::OutgoingCalls => true,
        Action::OutgoingCallsTree => true,
        _ => false,
    }
}

/// Whether an action needs the index of the whole workspace.
pub fn wants_full(action: Action) -> (r: bool)
    ensures
        r == needs_full(action),
{
    wants_position(action) || action == Action::Subtypes || action == Action::SubtypesTree
        || action == Action::PrewarmFull
}

/// What a missing part of a position is reported as.
fn report_missing(action: Action, part: &str) -> (message: String)
    ensures
        message@ == missing_part(action, part@),
{
    let tail = if action == Action::ResolveCallableReference {
        "' for callable reference query"
    } else {
        "' for call query"
    };
    cat3("missing '", part, tail)
}

/// What a request asks for, or why it is refused.
pub fn check_request(request: &ServeRequest) -> (r: Result<Action, String>)
    ensures
        match r {
            Ok(found) => checked(request.action@, request.line, request.col) == Ok::<Action, Text>(
                found,
            ),
            Err(message) => checked(request.action@, request.line, request.col) == Err::<
                Action,
                Text,
            >(message@),
        },
{
    match action_named(request.action.as_str()) {
        None => Err(cat("unknown action: ", request.action.as_str())),
        Some(found) => if wants_position(found) && request.line.is_none() {
            Err(report_missing(found, "line"))
        } else if wants_position(found) && request.col.is_none() {
            Err(report_missing(found, "col"))
        } else {
            Ok(found)
        },
    }
}

/// What a request is answered.
#[derive(Debug)]
pub enum Answer {
    Hierarchy(QueryResult),
    Tree(RenderTreeResult),
    Items(Vec<HierarchyItem>),
    Calls(Vec<CallHierarchyEdge>),
    Members(ClassMembersResult),
    Reference(ResolvedCallableReference),
    Done,
    Refused(String),
    Failed(QueryError),
    NeedsFull,
}

/// What an answer is.
pub enum AnswerView {
    Hierarchy(QueryResultView),
    Tree(RowView),
    Items(Seq<HierarchyItemView>),
    Calls(Seq<EdgeView>),
    Members(MembersView),
    Reference(ReferenceView),
    Done,
    Refused(Text),
    Failed(QueryErrorView),
    NeedsFull,
}

impl DeepView for Answer {
    type V = AnswerView;

    open spec fn deep_view(&self) -> AnswerView {
        match self {
            Answer::Hierarchy(result) => AnswerView::Hierarchy(result.deep_view()),
            Answer::Tree(tree) => AnswerView::Tree(tree.deep_view()),
            Answer::Items(items) => AnswerView::Items(items.deep_view()),
            Answer::Calls(edges) => AnswerView::Calls(edges.deep_view()),
            Answer::Members(members) => AnswerView::Members(members.deep_view()),
            Answer::Reference(reference) => AnswerView::Reference(reference.deep_view()),
            Answer::Done => AnswerView::Done,
            Answer::Refused(message) => AnswerView::Refused(message@),
            Answer::Failed(error) => AnswerView::Failed(error.deep_view()),
            Answer::NeedsFull => AnswerView::NeedsFull,
        }
    }
}

/// A request as its answer depends on it.
pub struct RequestView {
    pub action: Text,
    pub file: Text,
    pub canonical: Option<Text>,
    pub symbol_name: Text,
    pub line: Option<usize>,
    pub col: Option<usize>,
    pub max_depth: Option<usize>,
    pub member_depth: Option<usize>,
}

/// What a request is, given the canonical path of its file.
pub open spec fn request_view(request: ServeRequest, canonical: Option<Text>) -> RequestView {
    RequestView {
        action: request.action@,
        file: request.file@,
        canonical,
        symbol_name: request.symbol_name@,
        line: request.line,
        col: request.col,
        max_depth: request.max_depth,
        member_depth: request.member_depth,
    }
}

/// The answer to an action that the index on demand answers.
pub open spec fn lazy_answer(action: Action, r: RequestView, lazy: IndexView) -> AnswerView {
    match action {
        Action::Supertypes => match queries::type_hierarchy(
            lazy,
            r.file,
            r.canonical,
            r.symbol_name,
        ) {
            Ok(result) => AnswerView::Hierarchy(result),
            Err(error) => AnswerView::Failed(error),
        },
        Action::SupertypesTree => match queries::supertypes_tree(
            lazy,
            r.file,
            r.canonical,
            r.symbol_name,
        ) {
            Ok(tree) => AnswerView::Tree(tree),
            Err(error) => AnswerView::Failed(error),
        },
        Action::ClassMembers => match queries::class_members(
            lazy,
            r.file,
            r.canonical,
            r.symbol_name,
        ) {
            Ok(members) => AnswerView::Members(members),
            Err(error) => AnswerView::Failed(error),
        },
        Action::ResolveClassFields => match queries::resolved_class_fields(
            lazy,
            r.file,
            r.canonical,
            r.symbol_name,
        ) {
            Ok(members) => AnswerView::Members(members),
            Err(error) => AnswerView::Failed(error),
        },
        _ => AnswerView::Done,
    }
}

/// The answer to an action that the index of the whole workspace answers.
pub open spec fn full_answer(action: Action, r: RequestView, full: IndexView) -> AnswerView {
    match action {
        Action::Subtypes => match queries::subtypes(full, r.file, r.canonical, r.symbol_name) {
            Ok(items) => AnswerView::Items(items),
            Err(error) => AnswerView::Failed(error),
        },
        Action::SubtypesTree => match queries::subtypes_tree(
            full,
            r.file,
            r.canonical,
            r.symbol_name,
            r.max_depth,
            r.member_depth,
        ) {
            Ok(tree) => AnswerView::Tree(tree),
            Err(error) => AnswerView::Failed(error),
        },
        Action::ResolveCallableReference => match queries::callable_reference(
            full,
            r.file,
            r.canonical,
            r.line->0,
            r.col->0,
        ) {
            Ok(reference) => AnswerView::Reference(reference),
            Err(error) => AnswerView::Failed(error),
        },
        Action::IncomingCalls => match queries::calls(
            full,
            r.file,
            r.canonical,
            r.symbol_name,
            r.line,
            r.col,
            true,
        ) {
            Ok(edges) => AnswerView::Calls(edges),
            Err(error) => AnswerView::Failed(error),
        },
        Action::OutgoingCalls => match queries::calls(
            full,
            r.file,
            r.canonical,
            r.symbol_name,
            r.line,
            r.col,
            false,
        ) {
            Ok(edges) => AnswerView::Calls(edges),
            Err(error) => AnswerView::Failed(error),
        },
        Action::IncomingCallsTree => match queries::calls_tree(
            full,
            r.file,
            r.canonical,
            r.symbol_name,
            r.line,
            r.col,
            true,
        ) {
            Ok(tree) => AnswerView::Tree(tree),
            Err(error) => AnswerView::Failed(error),
        },
        Action::OutgoingCallsTree => match queries::calls_tree(
            full,
            r.file,
            r.canonical,
            r.symbol_name,
            r.line,
            r.col,
            false,
        ) {
            Ok(tree) => AnswerView::Tree(tree),
            Err(error) => AnswerView::Failed(error),
        },
        _ => AnswerView::Done,
    }
}

/// The answer to a request, given the index on demand and, where it is there, the one of the whole
/// workspace.
pub open spec fn answer_to(r: RequestView, lazy: IndexView, full: Option<IndexView>) -> AnswerView {
    match checked(r.action, r.line, r.col) {
        Err(message) => AnswerView::Refused(message),
        Ok(found) => if needs_full(found) {
            match full {
                None => AnswerView::NeedsFull,
                Some(index) => full_answer(found, r, index),
            }
        } else {
            lazy_answer(found, r, lazy)
        },
    }
}

/// Whether a request makes what was read before it stale.
pub open spec fn refreshes(r: RequestView) -> bool {
    checked(r.action, r.line, r.col) == Ok::<Action, Text>(Action::Refresh)
}

fn tree_answer(result: Result<RenderTreeResult, QueryError>) -> (answer: Answer)
    ensures
        answer.deep_view() == (match result {
            Ok(tree) => AnswerView::Tree(tree.deep_view()),
            Err(error) => AnswerView::Failed(error.deep_view()),
        }),
{
    match result {
        Ok(tree) => Answer::Tree(tree),
        Err(error) => Answer::Failed(error),
    }
}

fn members_answer(result: Result<ClassMembersResult, QueryError>) -> (answer: Answer)
    ensures
        answer.deep_view() == (match result {
            Ok(members) => AnswerView::Members(members.deep_view()),
            Err(error) => AnswerView::Failed(error.deep_view()),
        }),
{
    match result {
        Ok(members) => Answer::Members(members),
        Err(error) => Answer::Failed(error),
    }
}

fn calls_answer(result: Result<Vec<CallHierarchyEdge>, QueryError>) -> (answer: Answer)
    ensures
        answer.deep_view() == (match result {
            Ok(edges) => AnswerView::Calls(edges.deep_view()),
            Err(error) => AnswerView::Failed(error.deep_view()),
        }),
{
    match result {
        Ok(edges) => Answer::Calls(edges),
        Err(error) => Answer::Failed(error),
    }
}

/// The answer to an action that the index on demand answers.
fn answer_lazily(found: Action, request: &ServeRequest, canonical: &Option<String>, lazy: &WorkspaceIndex) -> (answer: Answer)
    requires
        lazy.wf(),
    ensures
        answer.deep_view() == lazy_answer(
            found,
            request_view(*request, canonical.deep_view()),
            lazy@,
        ),
{
    let file = request.file.as_str();
    let symbol = request.symbol_name.as_str();
    match found {
        Action::Supertypes => match query_type_hierarchy(lazy, file, canonical, symbol) {
            Ok(result) => Answer::Hierarchy(result),
            Err(error) => Answer::Failed(error),
        },
        Action::SupertypesTree => tree_answer(query_supertypes_tree(lazy, file, canonical, symbol)),
        Action::ClassMembers => members_answer(query_class_members(lazy, file, canonical, symbol)),
        Action::ResolveClassFields => members_answer(
            query_resolved_class_fields(lazy, file, canonical, symbol),
        ),
        _ => Answer::Done,
    }
}

/// The answer to an action that the index of the whole workspace answers.
fn answer_fully(found: Action, request: &ServeRequest, canonical: &Option<String>, full: &WorkspaceIndex) -> (answer: Answer)
    requires
        full.wf(),
        found == Action::ResolveCallableReference ==> request.line is Some && request.col is Some,
    ensures
        answer.deep_view() == full_answer(
            found,
            request_view(*request, canonical.deep_view()),
            full@,
        ),
{
    let file = request.file.as_str();
    let symbol = request.symbol_name.as_str();
    let line = request.line;
    let col = request.col;
    match found {
        Action::Subtypes => match query_subtypes(full, file, canonical, symbol) {
            Ok(items) => Answer::Items(items),
            Err(error) => Answer::Failed(error),
        },
        Action::SubtypesTree => tree_answer(
            query_subtypes_tree_limited(
                full,
                file,
                canonical,
                symbol,
                request.max_depth,
                request.member_depth,
            ),
        ),
        Action::ResolveCallableReference => match (line, col) {
            (Some(l), Some(c)) => match query_resolved_callable_reference(
                full,
                file,
                canonical,
                l,
                c,
            ) {
                Ok(reference) => Answer::Reference(reference),
                Err(error) => Answer::Failed(error),
            },
            _ => {
                assert(false);
                Answer::Done
            },
        },
        Action::IncomingCalls => calls_answer(
            query_incoming_calls(full, file, canonical, symbol, line, col),
        ),
        Action::OutgoingCalls => calls_answer(
            query_outgoing_calls(full, file, canonical, symbol, line, col),
        ),
        Action::IncomingCallsTree => tree_answer(
            query_incoming_calls_tree(full, file, canonical, symbol, line, col),
        ),
        Action::OutgoingCallsTree => tree_answer(
            query_outgoing_calls_tree(full, file, canonical, symbol, line, col),
        ),
        _ => Answer::Done,
    }
}

/// What the index of the whole workspace stands for, where it is there.
pub open spec fn full_view(full: Option<WorkspaceIndex>) -> Option<IndexView> {
    match full {
        Some(index) => Some(index@),
        None => None,
    }
}

/// Answers a request. A refresh drops what was read of the file on demand, and the index of the
/// whole workspace; no other request changes anything. Where the index of the whole workspace is
/// needed and not there, the answer says so: set it up and ask again.
pub fn answer_request(request: &ServeRequest, canonical: &Option<String>, lazy: &mut WorkspaceIndex, full: &mut Option<WorkspaceIndex>) -> (answer: Answer)
    requires
        old(lazy).wf(),
        *old(full) matches Some(index) ==> index.wf(),
    ensures
        final(lazy).wf(),
        answer.deep_view() == answer_to(
            request_view(*request, canonical.deep_view()),
            old(lazy)@,
            full_view(*old(full)),
        ),
        ({
            let r = request_view(*request, canonical.deep_view());
            if refreshes(r) {
                final(lazy)@ == index::evicted(old(lazy)@, r.file) && *final(full) is None
            } else {
                *final(lazy) == *old(lazy) && *final(full) == *old(full)
            }
        }),
{
    let found = match check_request(request) {
        Err(message) => {
            return Answer::Refused(message);
        },
        Ok(found) => found,
    };
    if found == Action::Refresh {
        evict_module_file(lazy, request.file.as_str());
        *full = None;
        return Answer::Done;
    }
    if wants_full(found) {
        match &*full {
            None => Answer::NeedsFull,
            Some(index) => answer_fully(found, request, canonical, index),
        }
    } else {
        answer_lazily(found, request, canonical, lazy)
    }
}

proof fn lemma_json_char_is_inline(c: char)
    ensures
        !json_char(c).contains('\n'),
{
    let code = c as u32 as int;
    if code < 32 {
        assert(0 <= code / 16 < 16 && 0 <= code % 16 < 16);
        assert(hex(code / 16) != '\n' && hex(code % 16) != '\n');
    }
    assert forall|i: int| 0 <= i < json_char(c).len() implies json_char(c)[i] != '\n' by {}
}

proof fn lemma_json_chars_are_inline(s: Text)
    ensures
        !json_chars(s).contains('\n'),
    decreases s.len(),
{
    if s.len() > 0 {
        let front = json_chars(s.drop_last());
        let tail = json_char(s.last());
        lemma_json_chars_are_inline(s.drop_last());
        lemma_json_char_is_inline(s.last());
        vstd::seq_lib::lemma_seq_concat_contains_all_elements(front, tail, '\n');
    }
}

proof fn lemma_json_chars_from_front(s: Text)
    requires
        s.len() > 0,
    ensures
        json_chars(s) == json_char(s[0]) + json_chars(s.drop_first()),
    decreases s.len(),
{
    if s.len() == 1 {
        assert(s.drop_last() =~= Seq::<char>::empty());
        assert(s.drop_first() =~= Seq::<char>::empty());
        assert(Seq::<char>::empty() + json_char(s[0]) =~= json_char(s[0]) + Seq::<char>::empty());
    } else {
        lemma_json_chars_from_front(s.drop_last());
        assert(s.drop_last().drop_first() =~= s.drop_first().drop_last());
        assert(json_chars(s) =~= json_char(s[0]) + json_chars(s.drop_first()));
    }
}

proof fn lemma_hex_tells_digits_apart(a: int, b: int)
    requires
        0 <= a < 16,
        0 <= b < 16,
        hex(a) == hex(b),
    ensures
        a == b,
{
}

proof fn lemma_json_char_tells_apart(a: char, b: char, x: Text, y: Text)
    requires
        json_char(a) + x == json_char(b) + y,
    ensures
        a == b,
        x == y,
{
    let left = json_char(a) + x;
    let right = json_char(b) + y;
    assert(left[0] == json_char(a)[0] && right[0] == json_char(b)[0]);
    if json_char(a).len() > 1 && json_char(b).len() > 1 {
        assert(left[1] == json_char(a)[1] && right[1] == json_char(b)[1]);
        if json_char(a).len() == 6 && json_char(b).len() == 6 {
            let m = a as u32 as int;
            let n = b as u32 as int;
            assert(left[4] == json_char(a)[4] && right[4] == json_char(b)[4]);
            assert(left[5] == json_char(a)[5] && right[5] == json_char(b)[5]);
            lemma_hex_tells_digits_apart(m / 16, n / 16);
            lemma_hex_tells_digits_apart(m % 16, n % 16);
            assert(m == n);
        }
    }
    assert(a == b);
    assert(left.skip(json_char(a).len() as int) =~= x);
    assert(right.skip(json_char(a).len() as int) =~= y);
}

/// Two texts that are the same JSON string are the same text.
pub proof fn law_json_strings_tell_texts_apart(a: Text, b: Text)
    requires
        json_string(a) == json_string(b),
    ensures
        a == b,
{
    let x = json_string(a);
    let y = json_string(b);
    assert(x.subrange(1, x.len() - 1) =~= json_chars(a));
    assert(y.subrange(1, y.len() - 1) =~= json_chars(b));
    lemma_json_chars_tell_apart(a, b);
}

proof fn lemma_json_chars_tell_apart(a: Text, b: Text)
    requires
        json_chars(a) == json_chars(b),
    ensures
        a == b,
    decreases a.len(),
{
    if a.len() > 0 {
        lemma_json_chars_from_front(a);
    }
    if b.len() > 0 {
        lemma_json_chars_from_front(b);
    }
    if a.len() > 0 && b.len() > 0 {
        lemma_json_char_tells_apart(
            a[0],
            b[0],
            json_chars(a.drop_first()),
            json_chars(b.drop_first()),
        );
        lemma_json_chars_tell_apart(a.drop_first(), b.drop_first());
        assert(a =~= seq![a[0]] + a.drop_first());
        assert(b =~= seq![b[0]] + b.drop_first());
    } else {
        assert(a.len() > 0 ==> json_chars(a).len() >= json_char(a[0]).len());
        assert(b.len() > 0 ==> json_chars(b).len() >= json_char(b[0]).len());
        assert(a =~= b);
    }
}

/// A reply is a single line: an error whatever its text is, a result wherever its JSON is one.
pub proof fn law_replies_are_single_lines(id: Option<u64>, error: Text, number: u64, json: Text)
    ensures
        !error_message(id, error).contains('\n'),
        !json.contains('\n') ==> !success_message(number, json).contains('\n'),
{
    reveal_strlit("{\"id\":");
    reveal_strlit(",\"error\":");
    reveal_strlit(",\"result\":");
    reveal_strlit("{\"error\":");
    reveal_strlit("}");
    lemma_json_chars_are_inline(error);
    assert(!seq!['"'].contains('\n'));
    vstd::seq_lib::lemma_seq_concat_contains_all_elements(seq!['"'], json_chars(error), '\n');
    vstd::seq_lib::lemma_seq_concat_contains_all_elements(seq!['"'] + json_chars(error), seq!['"'], '\n');
    let quoted = json_string(error);
    if let Some(id) = id {
        let n = numbers::decimal(id as nat);
        numbers::lemma_decimal_holds_digits(id as nat, '\n');
        vstd::seq_lib::lemma_seq_concat_contains_all_elements("{\"id\":"@, n, '\n');
        vstd::seq_lib::lemma_seq_concat_contains_all_elements("{\"id\":"@ + n, ",\"error\":"@, '\n');
        vstd::seq_lib::lemma_seq_concat_contains_all_elements("{\"id\":"@ + n + ",\"error\":"@, quoted, '\n');
        vstd::seq_lib::lemma_seq_concat_contains_all_elements("{\"id\":"@ + n + ",\"error\":"@ + quoted, "}"@, '\n');
    } else {
        vstd::seq_lib::lemma_seq_concat_contains_all_elements("{\"error\":"@, quoted, '\n');
        vstd::seq_lib::lemma_seq_concat_contains_all_elements("{\"error\":"@ + quoted, "}"@, '\n');
    }
    if !json.contains('\n') {
        let n = numbers::decimal(number as nat);
        numbers::lemma_decimal_holds_digits(number as nat, '\n');
        vstd::seq_lib::lemma_seq_concat_contains_all_elements("{\"id\":"@, n, '\n');
        vstd::seq_lib::lemma_seq_concat_contains_all_elements("{\"id\":"@ + n, ",\"result\":"@, '\n');
        vstd::seq_lib::lemma_seq_concat_contains_all_elements("{\"id\":"@ + n + ",\"result\":"@, json, '\n');
        vstd::seq_lib::lemma_seq_concat_contains_all_elements("{\"id\":"@ + n + ",\"result\":"@ + json, "}"@, '\n');
    }
}

/// After a refresh, what was read of the file on demand is forgotten: unless another file gave
/// the module of the same name, it is read again when it is next asked for.
pub proof fn law_refresh_forgets_the_file(lazy: IndexView, file: Text)
    requires
        lazy.lazy_paths.contains_key(paths::plain(file)),
    ensures
        !index::evicted(lazy, file).lazy_paths.contains_key(paths::plain(file)),
        !index::evicted(lazy, file).lazy.contains_key(lazy.lazy_paths[paths::plain(file)]),
        forall|name: Text|
            name != lazy.lazy_paths[paths::plain(file)] && lazy.lazy.contains_key(name)
                ==> #[trigger] index::evicted(lazy, file).lazy.contains_key(name) && index::evicted(
                lazy,
                file,
            ).lazy[name] == lazy.lazy[name],
{
}

/// A request that is refused is refused whatever the indices hold.
pub proof fn law_refusals_do_not_depend_on_the_index(r: RequestView, a: IndexView, b: IndexView, x: Option<IndexView>, y: Option<IndexView>)
    ensures
        answer_to(r, a, x) is Refused <==> answer_to(r, b, y) is Refused,
        answer_to(r, a, x) is Refused ==> answer_to(r, a, x) == answer_to(r, b, y),
{
}

} // verus!
