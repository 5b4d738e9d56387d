//! What the statements of a module say: the meaning of a token sequence, statement by statement.
use vstd::prelude::*;

use crate::annotations;
use crate::lines;
use crate::model::BindingView;
use crate::model::CallView;
use crate::model::ClassView;
use crate::model::FieldView;
use crate::model::FunctionView;
use crate::model::MethodView;
use crate::model::ModuleView;
use crate::model::RangePoint;
use crate::model::SourceRange;
use crate::text;
use crate::text::Text;
use crate::tokens::TokenKindTag;
use crate::tokens::TokenView;

verus! {

/// The text that `String::from_utf8_lossy` makes of bytes.
pub uninterp spec fn lossy(bytes: Seq<u8>) -> Text;

/// `String::from_utf8_lossy`: the text is a function of the bytes, and where they are valid UTF-8
/// it is the one that they encode.
#[verifier::external_body]
pub(crate) fn decode(bytes: &[u8]) -> (text: String)
    ensures
        text@ == lossy(bytes@),
        vstd::utf8::valid_utf8(bytes@) ==> text@ == vstd::utf8::decode_utf8(bytes@),
{
    String::from_utf8_lossy(bytes).into_owned()
}

/// What the meaning of a statement depends on besides what came before it.
pub struct Context {
    pub bytes: Seq<u8>,
    pub module_name: Text,
    pub package_name: Text,
}

/// Whose body a scope is: that of a class or of a function, each by its place in the module.
pub enum OwnerView {
    Class(int),
    Function(int),
}

/// A scope: its owner, and how deep its body is indented.
pub struct FrameView {
    pub body_indent: int,
    pub owner: OwnerView,
}

/// What has been read of a module so far.
#[verifier::ext_equal]
pub struct StateView {
    pub indent: int,
    pub pending: Option<FrameView>,
    pub scopes: Seq<FrameView>,
    pub statement: Seq<TokenView>,
    pub imports: Map<Text, BindingView>,
    pub star_imports: Seq<Text>,
    pub classes: Seq<ClassView>,
    pub functions: Seq<FunctionView>,
}

/// The text that bytes `start..end` hold, none where they are not a stretch of the source.
pub open spec fn slice(bytes: Seq<u8>, start: u32, end: u32) -> Text {
    if start <= end <= bytes.len() {
        lossy(bytes.subrange(start as int, end as int))
    } else {
        Seq::empty()
    }
}

/// The text of one token.
pub open spec fn token_text(bytes: Seq<u8>, token: TokenView) -> Text {
    slice(bytes, token.start, token.end)
}

/// The text from the start of token `a` to the end of token `b`.
pub open spec fn span_text(bytes: Seq<u8>, t: Seq<TokenView>, a: int, b: int) -> Text {
    if 0 <= a < t.len() && 0 <= b < t.len() {
        slice(bytes, t[a].start, t[b].end)
    } else {
        Seq::empty()
    }
}

/// The position of a byte offset.
pub open spec fn point(bytes: Seq<u8>, offset: u32) -> RangePoint {
    RangePoint {
        line: lines::line_number(bytes, offset as int) as usize,
        col: lines::column(bytes, offset as int) as usize,
    }
}

/// The kind of token `i`, where there is one.
pub open spec fn kind_at(t: Seq<TokenView>, i: int) -> Option<TokenKindTag> {
    if 0 <= i < t.len() {
        Some(t[i].kind)
    } else {
        None
    }
}

/// The identifier that token `i` is.
pub open spec fn name_at(t: Seq<TokenView>, i: int) -> Option<Text> {
    if 0 <= i < t.len() {
        t[i].name
    } else {
        None
    }
}

/// Behind the last name of a dotted name of which a part ends before token `i`.
pub open spec fn chain_end(t: Seq<TokenView>, i: int) -> int
    decreases t.len() - i,
{
    if kind_at(t, i) == Some(TokenKindTag::Dot) && kind_at(t, i + 1) == Some(TokenKindTag::Name) {
        chain_end(t, i + 2)
    } else {
        i
    }
}

/// The end of a dotted name is not before its start and not behind the statement.
pub proof fn lemma_chain_end(t: Seq<TokenView>, i: int)
    requires
        0 <= i <= t.len(),
    ensures
        i <= chain_end(t, i) <= t.len(),
        chain_end(t, i) == i || kind_at(t, chain_end(t, i) - 1) == Some(TokenKindTag::Name),
    decreases t.len() - i,
{
    if kind_at(t, i) == Some(TokenKindTag::Dot) && kind_at(t, i + 1) == Some(TokenKindTag::Name) {
        lemma_chain_end(t, i + 2);
    }
}

/// The names of a dotted name that starts at token `i` and ends before token `end`.
pub open spec fn chain_names(bytes: Seq<u8>, t: Seq<TokenView>, i: int, end: int) -> Seq<Text>
    decreases end - i + 1,
{
    if i >= end {
        Seq::empty()
    } else {
        seq![token_text(bytes, t[i])] + chain_names(bytes, t, i + 2, end)
    }
}

/// The dotted name that starts at token `i`, and the place behind it.
pub open spec fn dotted(bytes: Seq<u8>, t: Seq<TokenView>, i: int) -> Option<(Text, int)> {
    if kind_at(t, i) == Some(TokenKindTag::Name) {
        let end = chain_end(t, i + 1);
        Some((text::joined(chain_names(bytes, t, i, end), "."@), end))
    } else {
        None
    }
}

/// The name behind `as` at token `i`, else the one given; and the place behind it.
pub open spec fn renamed(t: Seq<TokenView>, i: int, default: Text) -> (Text, int) {
    if kind_at(t, i) == Some(TokenKindTag::As) && name_at(t, i + 1) is Some {
        (name_at(t, i + 1)->0, i + 2)
    } else {
        (default, i)
    }
}

/// The bindings after `import`, read from token `i` on.
pub open spec fn after_import(
    bytes: Seq<u8>,
    t: Seq<TokenView>,
    i: int,
    imports: Map<Text, BindingView>,
) -> Map<Text, BindingView>
    decreases t.len() - i,
{
    match dotted(bytes, t, i) {
        Some((module, end)) => {
            proof {
                lemma_chain_end(t, i + 1);
            }
            let (alias, next) = renamed(t, end, text::after_last(module, '.'));
            let bound = imports.insert(alias, BindingView::Module { module });
            if kind_at(t, next) == Some(TokenKindTag::Comma) {
                after_import(bytes, t, next + 1, bound)
            } else {
                bound
            }
        },
        None => imports,
    }
}

/// Behind the dots that start at token `i`.
pub open spec fn dots_end(t: Seq<TokenView>, i: int) -> int
    decreases t.len() - i,
{
    if kind_at(t, i) == Some(TokenKindTag::Dot) {
        dots_end(t, i + 1)
    } else {
        i
    }
}

/// The module that `from` names: as it stands, or from the package upwards where dots lead it.
pub open spec fn from_module(package: Text, level: int, part: Text) -> Text {
    if level == 0 {
        part
    } else {
        let package_parts = if package.len() == 0 {
            Seq::empty()
        } else {
            text::split(package, Some('.'))
        };
        let up = level - 1;
        let base = if up <= package_parts.len() {
            package_parts.take(package_parts.len() - up)
        } else {
            Seq::empty()
        };
        let parts = if part.len() == 0 {
            base
        } else {
            base + text::split(part, Some('.'))
        };
        text::joined(parts, "."@)
    }
}

/// What a name imported by `from` is bound to.
pub open spec fn from_binding(resolved: Text, part: Text, name: Text) -> BindingView {
    if part.len() == 0 {
        BindingView::Module { module: resolved + "."@ + name }
    } else {
        BindingView::ImportedName { module: resolved, name }
    }
}

/// The bindings and star imports after the names of a `from` import, read from token `i` on.
pub open spec fn after_from(
    bytes: Seq<u8>,
    t: Seq<TokenView>,
    i: int,
    resolved: Text,
    part: Text,
    imports: Map<Text, BindingView>,
    stars: Seq<Text>,
) -> (Map<Text, BindingView>, Seq<Text>)
    decreases t.len() - i,
{
    if i < 0 || i >= t.len() || t[i].kind == TokenKindTag::Rpar {
        (imports, stars)
    } else if token_text(bytes, t[i]) == "*"@ {
        (imports, stars.push(resolved))
    } else {
        match t[i].name {
            None => after_from(bytes, t, i + 1, resolved, part, imports, stars),
            Some(name) => {
                let (alias, next) = renamed(t, i + 1, name);
                let bound = imports.insert(alias, from_binding(resolved, part, name));
                if kind_at(t, next) == Some(TokenKindTag::Comma) {
                    after_from(bytes, t, next + 1, resolved, part, bound, stars)
                } else {
                    (bound, stars)
                }
            },
        }
    }
}

/// The bindings and star imports after a `from` statement.
pub open spec fn from_import(
    ctx: Context,
    t: Seq<TokenView>,
    imports: Map<Text, BindingView>,
    stars: Seq<Text>,
) -> (Map<Text, BindingView>, Seq<Text>) {
    let dots = dots_end(t, 1);
    let (part, end) = match dotted(ctx.bytes, t, dots) {
        Some(found) => found,
        None => (Seq::empty(), dots),
    };
    if kind_at(t, end) == Some(TokenKindTag::Import) {
        let first = if kind_at(t, end + 1) == Some(TokenKindTag::Lpar) {
            end + 2
        } else {
            end + 1
        };
        let resolved = from_module(ctx.package_name, dots - 1, part);
        after_from(ctx.bytes, t, first, resolved, part, imports, stars)
    } else {
        (imports, stars)
    }
}

/// How many brackets of each kind are open.
pub struct Depths {
    pub paren: int,
    pub square: int,
    pub brace: int,
}

/// One less, but not below zero.
pub open spec fn less_one(n: int) -> int {
    if n > 0 {
        n - 1
    } else {
        0
    }
}

impl Depths {
    /// Whether no bracket is open.
    pub open spec fn none(self) -> bool {
        self.paren == 0 && self.square == 0 && self.brace == 0
    }

    /// The open brackets after a token of this kind.
    pub open spec fn after(self, kind: TokenKindTag) -> Depths {
        match kind {
            TokenKindTag::Lpar => Depths { paren: self.paren + 1, ..self },
            TokenKindTag::Rpar => Depths { paren: less_one(self.paren), ..self },
            TokenKindTag::Lsqb => Depths { square: self.square + 1, ..self },
            TokenKindTag::Rsqb => Depths { square: less_one(self.square), ..self },
            TokenKindTag::Lbrace => Depths { brace: self.brace + 1, ..self },
            TokenKindTag::Rbrace => Depths { brace: less_one(self.brace), ..self },
            _ => self,
        }
    }
}

/// The place of the first `=` outside brackets, from token `i` on.
pub open spec fn top_level_equal(t: Seq<TokenView>, i: int, depths: Depths) -> Option<int>
    decreases t.len() - i,
{
    if i < 0 || i >= t.len() {
        None
    } else if t[i].kind == TokenKindTag::Equal && depths.none() {
        Some(i)
    } else {
        top_level_equal(t, i + 1, depths.after(t[i].kind))
    }
}

/// Behind the square bracket that closes the one at token `i`, or behind the statement.
pub open spec fn square_end(t: Seq<TokenView>, i: int, depth: int) -> int
    decreases t.len() - i,
{
    if i < 0 || i >= t.len() {
        i
    } else if t[i].kind == TokenKindTag::Lsqb {
        square_end(t, i + 1, depth + 1)
    } else if t[i].kind == TokenKindTag::Rsqb {
        if less_one(depth) == 0 {
            i + 1
        } else {
            square_end(t, i + 1, less_one(depth))
        }
    } else {
        square_end(t, i + 1, depth)
    }
}

/// The end of a bracket lies behind its start.
pub proof fn lemma_square_end(t: Seq<TokenView>, i: int, depth: int)
    requires
        0 <= i <= t.len(),
    ensures
        i <= square_end(t, i, depth) <= t.len(),
        i < t.len() ==> i < square_end(t, i, depth),
    decreases t.len() - i,
{
    if i < t.len() {
        if t[i].kind == TokenKindTag::Lsqb {
            lemma_square_end(t, i + 1, depth + 1);
        } else if t[i].kind == TokenKindTag::Rsqb {
            if less_one(depth) != 0 {
                lemma_square_end(t, i + 1, less_one(depth));
            }
        } else {
            lemma_square_end(t, i + 1, depth);
        }
    }
}

/// Behind the type parameters that start at token `i`.
pub open spec fn past_squares(t: Seq<TokenView>, i: int) -> int
    decreases t.len() - i,
{
    if kind_at(t, i) == Some(TokenKindTag::Lsqb) {
        proof {
            lemma_square_end(t, i, 0);
        }
        past_squares(t, square_end(t, i, 0))
    } else {
        i
    }
}

/// The base that tokens `start..end` spell; none where they are empty.
pub open spec fn base_between(bytes: Seq<u8>, t: Seq<TokenView>, start: int, end: int) -> Seq<Text> {
    let spelled = annotations::one_blank_apart(span_text(bytes, t, start, end - 1));
    if start < end && spelled.len() > 0 {
        seq![spelled]
    } else {
        Seq::empty()
    }
}

/// The bases from the one that starts at token `start` on, of which the tokens before `i` were
/// read. They end with the parenthesis that encloses them: without it the last one is none.
pub open spec fn bases_from(bytes: Seq<u8>, t: Seq<TokenView>, i: int, start: int, depths: Depths) -> Seq<Text>
    decreases t.len() - i,
{
    if i < 0 || i >= t.len() {
        Seq::empty()
    } else if t[i].kind == TokenKindTag::Rpar && depths.paren == 1 {
        base_between(bytes, t, start, i)
    } else if t[i].kind == TokenKindTag::Comma && depths.paren == 1 && depths.square == 0 && depths.brace == 0 {
        base_between(bytes, t, start, i) + bases_from(bytes, t, i + 1, i + 1, depths)
    } else {
        bases_from(bytes, t, i + 1, start, depths.after(t[i].kind))
    }
}

/// The bases of a class whose name stands before token `i`.
pub open spec fn class_bases(bytes: Seq<u8>, t: Seq<TokenView>, i: int) -> Seq<Text> {
    let open = past_squares(t, i);
    if kind_at(t, open) == Some(TokenKindTag::Lpar) {
        bases_from(bytes, t, open + 1, open + 1, Depths { paren: 1, square: 0, brace: 0 })
    } else {
        Seq::empty()
    }
}

/// The call or reference that a dotted name from token `i` to before token `end` makes.
pub open spec fn site(bytes: Seq<u8>, t: Seq<TokenView>, i: int, target: Text, end: int) -> CallView {
    CallView {
        raw_target: target,
        range: SourceRange {
            start: point(bytes, t[i].start),
            end: point(bytes, t[end - 1].end),
        },
    }
}

/// Whether a dotted name starts at token `i`, in a statement read from token `first` on.
pub open spec fn starts_chain(t: Seq<TokenView>, i: int, first: int) -> bool {
    kind_at(t, i) == Some(TokenKindTag::Name) && !(i > first && kind_at(t, i - 1) == Some(TokenKindTag::Dot))
}

/// The calls from token `i` on: each dotted name with a parenthesis behind it.
pub open spec fn call_sites(bytes: Seq<u8>, t: Seq<TokenView>, i: int) -> Seq<CallView>
    decreases t.len() - i,
{
    if i < 0 || i >= t.len() {
        Seq::empty()
    } else if starts_chain(t, i, 0) {
        let (target, end) = dotted(bytes, t, i)->0;
        if kind_at(t, end) == Some(TokenKindTag::Lpar) {
            proof {
                lemma_chain_end(t, i + 1);
            }
            seq![site(bytes, t, i, target, end)] + call_sites(bytes, t, end + 1)
        } else {
            call_sites(bytes, t, i + 1)
        }
    } else {
        call_sites(bytes, t, i + 1)
    }
}

/// The references found, with those from token `i` on: each dotted name that is neither called
/// nor the name of an argument, and each once.
pub open spec fn reference_sites(bytes: Seq<u8>, t: Seq<TokenView>, i: int, first: int, found: Seq<CallView>) -> Seq<CallView>
    decreases t.len() - i,
{
    if i < 0 || i >= t.len() {
        found
    } else if starts_chain(t, i, first) {
        let (target, end) = dotted(bytes, t, i)->0;
        proof {
            lemma_chain_end(t, i + 1);
        }
        if kind_at(t, end) == Some(TokenKindTag::Lpar) || kind_at(t, end) == Some(TokenKindTag::Equal) {
            reference_sites(bytes, t, end + 1, first, found)
        } else {
            let here = site(bytes, t, i, target, end);
            let all = if found.contains(here) {
                found
            } else {
                found.push(here)
            };
            reference_sites(bytes, t, end, first, all)
        }
    } else {
        reference_sites(bytes, t, i + 1, first, found)
    }
}

/// Whether a statement assigns to a name.
pub open spec fn assigns_name(t: Seq<TokenView>) -> bool {
    t.len() >= 3 && t[0].kind == TokenKindTag::Name && t[1].kind == TokenKindTag::Equal
}

/// The member `parts` of module `module`: all parts but the last go to the module.
pub open spec fn member_of(module: Text, parts: Seq<Text>) -> BindingView {
    if parts.len() == 1 {
        BindingView::ImportedName { module, name: parts[0] }
    } else {
        BindingView::ImportedName {
            module: module + "."@ + text::joined(parts.drop_last(), "."@),
            name: parts.last(),
        }
    }
}

/// Whether a class of this name has been read.
pub open spec fn class_read(classes: Seq<ClassView>, name: Text) -> bool {
    exists|i: int| 0 <= i < classes.len() && (#[trigger] classes[i]).name == name
}

/// What a statement that does nothing but give a known class or module another name binds it to.
pub open spec fn alias_binding(ctx: Context, st: StateView) -> Option<BindingView> {
    let t = st.statement;
    match dotted(ctx.bytes, t, 2) {
        Some((path, end)) => {
            let parts = text::split(path, Some('.'));
            let head = parts[0];
            let rest = parts.drop_first();
            if end != t.len() {
                None
            } else if parts.len() == 1 {
                if st.imports.contains_key(head) {
                    Some(st.imports[head])
                } else if class_read(st.classes, head) {
                    Some(BindingView::ImportedName { module: ctx.module_name, name: head })
                } else {
                    None
                }
            } else if st.imports.contains_key(head) {
                match st.imports[head] {
                    BindingView::Module { module } => Some(member_of(module, rest)),
                    BindingView::ImportedName { module, name } => Some(
                        member_of(module, seq![name] + rest),
                    ),
                }
            } else {
                None
            }
        },
        None => None,
    }
}

/// The stretch that a text covers which starts at a position.
pub open spec fn text_range(at: RangePoint, covered: Text) -> SourceRange {
    let width = if covered.len() > 0 {
        covered.len() - 1
    } else {
        0
    };
    let last = if at.col + width <= usize::MAX {
        (at.col + width) as usize
    } else {
        usize::MAX
    };
    SourceRange { start: at, end: RangePoint { line: at.line, col: last } }
}

/// A text, where there is any.
pub open spec fn if_any(s: Text) -> Option<Text> {
    if s.len() == 0 {
        None
    } else {
        Some(s)
    }
}

/// A field with the name and position of token 0 and a type at token 2.
pub open spec fn field_with(ctx: Context, t: Seq<TokenView>, annotation: Text, required: bool, type_ref: Option<Text>) -> FieldView {
    let at = point(ctx.bytes, t[0].start);
    let type_at = point(ctx.bytes, t[2].start);
    FieldView {
        name: token_text(ctx.bytes, t[0]),
        annotation,
        required,
        line: at.line,
        col: at.col,
        type_ref,
        type_line: Some(type_at.line),
        type_col: Some(type_at.col),
    }
}

/// The field that an annotated name declares. It is required unless it has a default or its type
/// admits none.
pub open spec fn annotated_field(ctx: Context, t: Seq<TokenView>) -> Option<FieldView> {
    let equal = top_level_equal(t, 2, Depths { paren: 0, square: 0, brace: 0 });
    let end = match equal {
        Some(i) => i,
        None => t.len() as int,
    };
    if t.len() >= 3 && t[0].kind == TokenKindTag::Name && t[1].kind == TokenKindTag::Colon && end > 2 {
        let annotation = annotations::one_blank_apart(span_text(ctx.bytes, t, 2, end - 1));
        Some(
            field_with(
                ctx,
                t,
                annotation,
                end == t.len() && annotations::demands_value(annotation),
                if_any(annotations::type_head(annotation)),
            ),
        )
    } else {
        None
    }
}

/// The type of an enum member with this value.
pub open spec fn member_type(value: Text) -> Text {
    if value[0] == '"' || value[0] == '\'' {
        "str"@
    } else if '0' <= value[0] <= '9' || value[0] == '-' {
        "int"@
    } else {
        Seq::empty()
    }
}

/// The field that an assignment in a class body declares; in an enum it is a member.
pub open spec fn assigned_field(ctx: Context, t: Seq<TokenView>, bases: Seq<Text>) -> Option<FieldView> {
    let value = annotations::one_blank_apart(span_text(ctx.bytes, t, 2, t.len() - 1));
    if assigns_name(t) && value.len() > 0 {
        if annotations::has_enum_base(bases) {
            Some(field_with(ctx, t, member_type(value), false, None))
        } else {
            Some(field_with(ctx, t, value, true, if_any(annotations::type_head(value))))
        }
    } else {
        None
    }
}

/// The field that a statement in a class body declares.
pub open spec fn declared_field(ctx: Context, t: Seq<TokenView>, bases: Seq<Text>) -> Option<FieldView> {
    match annotated_field(ctx, t) {
        Some(field) => Some(field),
        None => assigned_field(ctx, t, bases),
    }
}

/// The reference that a field of a class makes to its type.
pub open spec fn field_reference(field: FieldView, owner: Text) -> Seq<FunctionView> {
    match field.type_ref {
        Some(target) => {
            let at = RangePoint { line: field.type_line->0, col: field.type_col->0 };
            seq![
                FunctionView {
                    name: field.name,
                    line: field.line,
                    col: field.col,
                    kind: 8,
                    class_name: Some(owner),
                    calls: seq![CallView { raw_target: target, range: text_range(at, target) }],
                },
            ]
        },
        None => Seq::empty(),
    }
}

/// The innermost scope of a class.
pub open spec fn class_scope(scopes: Seq<FrameView>) -> Option<FrameView>
    decreases scopes.len(),
{
    if scopes.len() == 0 {
        None
    } else if scopes.last().owner is Class {
        Some(scopes.last())
    } else {
        class_scope(scopes.drop_last())
    }
}

/// The innermost scope of a function.
pub open spec fn function_scope(scopes: Seq<FrameView>) -> Option<FrameView>
    decreases scopes.len(),
{
    if scopes.len() == 0 {
        None
    } else if scopes.last().owner is Function {
        Some(scopes.last())
    } else {
        function_scope(scopes.drop_last())
    }
}

/// The class in whose body, and not deeper, a statement stands.
pub open spec fn body_class(st: StateView) -> Option<int> {
    match class_scope(st.scopes) {
        Some(frame) => if function_scope(st.scopes) is None && frame.body_indent == st.indent {
            Some(frame.owner->Class_0)
        } else {
            None
        },
        None => None,
    }
}

/// The function in whose body a statement stands.
pub open spec fn body_function(st: StateView) -> Option<int> {
    match function_scope(st.scopes) {
        Some(frame) => Some(frame.owner->Function_0),
        None => None,
    }
}

/// Whether a statement defines a function.
pub open spec fn defines_function(t: Seq<TokenView>) -> bool {
    ||| kind_at(t, 0) == Some(TokenKindTag::Def) && kind_at(t, 1) == Some(TokenKindTag::Name)
    ||| kind_at(t, 0) == Some(TokenKindTag::Async) && kind_at(t, 1) == Some(TokenKindTag::Def) && kind_at(t, 2)
        == Some(TokenKindTag::Name)
}

/// What is known after a statement that starts with `class`.
pub open spec fn after_class(ctx: Context, st: StateView) -> StateView {
    let t = st.statement;
    if kind_at(t, 1) == Some(TokenKindTag::Name) {
        let at = point(ctx.bytes, t[1].start);
        StateView {
            pending: Some(
                FrameView {
                    body_indent: st.indent + 1,
                    owner: OwnerView::Class(st.classes.len() as int),
                },
            ),
            classes: st.classes.push(
                ClassView {
                    name: token_text(ctx.bytes, t[1]),
                    line: at.line,
                    col: at.col,
                    bases: class_bases(ctx.bytes, t, 2),
                    methods: Seq::empty(),
                    fields: Seq::empty(),
                },
            ),
            ..st
        }
    } else {
        st
    }
}

/// The classes, with a method added to one of them.
pub open spec fn with_method(classes: Seq<ClassView>, class: Option<int>, method: MethodView) -> Seq<ClassView> {
    match class {
        Some(c) => classes.update(c, ClassView { methods: classes[c].methods.push(method), ..classes[c] }),
        None => classes,
    }
}

/// What is known after the definition of a function, or of a method where the body of a class
/// holds it.
pub open spec fn after_function(ctx: Context, st: StateView) -> StateView {
    let t = st.statement;
    let name = if t[0].kind == TokenKindTag::Async {
        t[2]
    } else {
        t[1]
    };
    let spelled = token_text(ctx.bytes, name);
    let at = point(ctx.bytes, name.start);
    let class = body_class(st);
    StateView {
        pending: Some(
            FrameView {
                body_indent: st.indent + 1,
                owner: OwnerView::Function(st.functions.len() as int),
            },
        ),
        classes: with_method(
            st.classes,
            class,
            MethodView { name: spelled, line: at.line, col: at.col },
        ),
        functions: st.functions.push(
            FunctionView {
                name: spelled,
                line: at.line,
                col: at.col,
                kind: if class is Some { 12 } else { 6 },
                class_name: match class {
                    Some(c) => Some(st.classes[c].name),
                    None => None,
                },
                calls: Seq::empty(),
            },
        ),
        ..st
    }
}

/// What is known after another statement in the body of class `c`.
pub open spec fn after_member(ctx: Context, st: StateView, c: int) -> StateView {
    match declared_field(ctx, st.statement, st.classes[c].bases) {
        Some(field) => StateView {
            classes: st.classes.update(
                c,
                ClassView { fields: st.classes[c].fields.push(field), ..st.classes[c] },
            ),
            functions: st.functions + field_reference(field, st.classes[c].name),
            ..st
        },
        None => st,
    }
}

/// What is known after another statement in the body of function `f`.
pub open spec fn after_body(ctx: Context, st: StateView, f: int) -> StateView {
    StateView {
        functions: st.functions.update(
            f,
            FunctionView {
                calls: st.functions[f].calls + call_sites(ctx.bytes, st.statement, 0),
                ..st.functions[f]
            },
        ),
        ..st
    }
}

/// What is known after an assignment at the top of the module whose value refers to others.
pub open spec fn after_reference(ctx: Context, st: StateView, sites: Seq<CallView>) -> StateView {
    let t = st.statement;
    let at = point(ctx.bytes, t[0].start);
    StateView {
        functions: st.functions.push(
            FunctionView {
                name: t[0].name->0,
                line: at.line,
                col: at.col,
                kind: 13,
                class_name: None,
                calls: sites,
            },
        ),
        ..st
    }
}

/// What is known after a statement that stands in neither a class nor a function, where it is one
/// of those that only such places have.
pub open spec fn after_top_level(ctx: Context, st: StateView) -> Option<StateView> {
    let t = st.statement;
    let sites = reference_sites(ctx.bytes, t, 2, 2, Seq::empty());
    if t[0].kind == TokenKindTag::Import {
        Some(StateView { imports: after_import(ctx.bytes, t, 1, st.imports), ..st })
    } else if t[0].kind == TokenKindTag::From {
        let (imports, star_imports) = from_import(ctx, t, st.imports, st.star_imports);
        Some(StateView { imports, star_imports, ..st })
    } else if assigns_name(t) && t[0].name is Some && alias_binding(ctx, st) is Some {
        Some(StateView { imports: st.imports.insert(t[0].name->0, alias_binding(ctx, st)->0), ..st })
    } else if assigns_name(t) && t[0].name is Some && sites.len() > 0 {
        Some(after_reference(ctx, st, sites))
    } else {
        None
    }
}

/// What is known after a statement that any place may have.
pub open spec fn after_anywhere(ctx: Context, st: StateView) -> StateView {
    if function_scope(st.scopes) is None && st.statement[0].kind == TokenKindTag::Class {
        after_class(ctx, st)
    } else if defines_function(st.statement) {
        after_function(ctx, st)
    } else {
        match (body_class(st), body_function(st)) {
            (Some(c), _) => after_member(ctx, st, c),
            (None, Some(f)) => after_body(ctx, st, f),
            (None, None) => st,
        }
    }
}

/// What is known after the statement that has been gathered.
pub open spec fn after_statement(ctx: Context, st: StateView) -> StateView {
    let top = class_scope(st.scopes) is None && function_scope(st.scopes) is None;
    match after_top_level(ctx, st) {
        Some(next) => if top {
            next
        } else {
            after_anywhere(ctx, st)
        },
        None => after_anywhere(ctx, st),
    }
}

/// What is known once the statement gathered, if there is one, has ended.
pub open spec fn flushed(ctx: Context, st: StateView) -> StateView {
    if st.statement.len() == 0 {
        st
    } else {
        StateView { statement: Seq::empty(), ..after_statement(ctx, st) }
    }
}

/// The scopes that are still open at an indentation.
pub open spec fn open_scopes(scopes: Seq<FrameView>, indent: int) -> Seq<FrameView>
    decreases scopes.len(),
{
    if scopes.len() > 0 && scopes.last().body_indent > indent {
        open_scopes(scopes.drop_last(), indent)
    } else {
        scopes
    }
}

/// What is known after one more token, which is not the end of the file.
pub open spec fn after_token(ctx: Context, st: StateView, token: TokenView) -> StateView {
    match token.kind {
        TokenKindTag::Indent => match st.pending {
            Some(frame) => StateView {
                indent: st.indent + 1,
                pending: None,
                scopes: st.scopes.push(frame),
                ..st
            },
            None => StateView { indent: st.indent + 1, ..st },
        },
        TokenKindTag::Dedent => {
            let done = flushed(ctx, st);
            let indent = less_one(done.indent);
            StateView { indent, scopes: open_scopes(done.scopes, indent), ..done }
        },
        TokenKindTag::Newline => flushed(ctx, st),
        _ => {
            let stale = st.statement.len() == 0 && st.pending is Some && st.indent
                < st.pending->0.body_indent;
            StateView {
                pending: if stale {
                    None
                } else {
                    st.pending
                },
                statement: st.statement.push(token),
                ..st
            }
        },
    }
}

/// What is known after the tokens that are left. A statement that neither a line end nor the end
/// of the file closes is not read.
pub open spec fn after_tokens(ctx: Context, st: StateView, tokens: Seq<TokenView>) -> StateView
    decreases tokens.len(),
{
    if tokens.len() == 0 {
        st
    } else if tokens[0].kind == TokenKindTag::EndOfFile {
        flushed(ctx, st)
    } else {
        after_tokens(ctx, after_token(ctx, st, tokens[0]), tokens.drop_first())
    }
}

/// What is known before the first token.
pub open spec fn initial() -> StateView {
    StateView {
        indent: 0,
        pending: None,
        scopes: Seq::empty(),
        statement: Seq::empty(),
        imports: Map::empty(),
        star_imports: Seq::empty(),
        classes: Seq::empty(),
        functions: Seq::empty(),
    }
}

/// Whether a name is that of an enum of the module.
pub open spec fn names_enum(classes: Seq<ClassView>, name: Text) -> bool {
    exists|i: int|
        0 <= i < classes.len() && (#[trigger] classes[i]).name == name && annotations::has_enum_base(
            classes[i].bases,
        )
}

/// A field once all classes of the module are known: not required where its type is an enum of the
/// module.
pub open spec fn settled_field(classes: Seq<ClassView>, field: FieldView) -> FieldView {
    if field.type_ref is Some && names_enum(classes, field.type_ref->0) {
        FieldView { required: false, ..field }
    } else {
        field
    }
}

/// A class once all classes of the module are known.
pub open spec fn settled_class(classes: Seq<ClassView>, class: ClassView) -> ClassView {
    ClassView { fields: class.fields.map_values(|field: FieldView| settled_field(classes, field)), ..class }
}

/// The classes of a module once all are known.
pub open spec fn settled(classes: Seq<ClassView>) -> Seq<ClassView> {
    classes.map_values(|class: ClassView| settled_class(classes, class))
}

/// The module that a sequence of tokens makes.
pub open spec fn module_of(path: Text, ctx: Context, tokens: Seq<TokenView>) -> ModuleView {
    let st = after_tokens(ctx, initial(), tokens);
    ModuleView {
        path,
        module_name: ctx.module_name,
        imports: st.imports,
        star_imports: st.star_imports,
        classes: settled(st.classes),
        functions: st.functions,
    }
}

} // verus!
