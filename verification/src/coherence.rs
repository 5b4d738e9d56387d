//! What holds of every module that is read, whatever its tokens are.
use vstd::prelude::*;

use crate::annotations;
use crate::grammar;
use crate::grammar::Context;
use crate::grammar::FrameView;
use crate::grammar::StateView;
use crate::model::ClassView;
use crate::model::FunctionView;
use crate::model::MethodView;
use crate::parser;
use crate::text::Text;
use crate::tokens::TokenKindTag;
use crate::tokens::TokenView;

verus! {

/// Whether a function is the one that a method of a class stands for.
pub open spec fn is_method(function: FunctionView, owner: Text, method: MethodView) -> bool {
    &&& function.kind == 12
    &&& function.class_name == Some(owner)
    &&& function.name == method.name
    &&& function.line == method.line
    &&& function.col == method.col
}

/// Whether a method of a class is among functions.
pub open spec fn has_method(functions: Seq<FunctionView>, owner: Text, method: MethodView) -> bool {
    exists|f: int| 0 <= f < functions.len() && is_method(#[trigger] functions[f], owner, method)
}

/// Whether every method of a class is among the functions.
pub open spec fn methods_are_functions(classes: Seq<ClassView>, functions: Seq<FunctionView>) -> bool {
    forall|c: int, m: int|
        0 <= c < classes.len() && 0 <= m < classes[c].methods.len() ==> has_method(
            functions,
            classes[c].name,
            #[trigger] classes[c].methods[m],
        )
}

/// Whether every function that belongs to a class belongs to one that was read.
pub open spec fn owners_are_classes(classes: Seq<ClassView>, functions: Seq<FunctionView>) -> bool {
    forall|f: int|
        0 <= f < functions.len() ==> ((#[trigger] functions[f]).class_name matches Some(owner)
            ==> grammar::class_read(classes, owner))
}

/// Whether classes and functions fit together.
pub open spec fn coherent(classes: Seq<ClassView>, functions: Seq<FunctionView>) -> bool {
    methods_are_functions(classes, functions) && owners_are_classes(classes, functions)
}

/// Whether what has been read fits together, and scopes belong to what has been read.
spec fn sound(st: StateView) -> bool {
    parser::owners_read(st) && coherent(st.classes, st.functions)
}

proof fn lemma_more_functions(classes: Seq<ClassView>, functions: Seq<FunctionView>, function: FunctionView)
    requires
        coherent(classes, functions),
        function.class_name matches Some(owner) ==> grammar::class_read(classes, owner),
    ensures
        coherent(classes, functions.push(function)),
{
    let all = functions.push(function);
    assert forall|c: int, m: int|
        0 <= c < classes.len() && 0 <= m < classes[c].methods.len() implies has_method(
        all,
        classes[c].name,
        #[trigger] classes[c].methods[m],
    ) by {
        lemma_has_method_stays(functions, all, classes[c].name, classes[c].methods[m]);
    }
}

proof fn lemma_has_method_stays(before: Seq<FunctionView>, after: Seq<FunctionView>, owner: Text, method: MethodView)
    requires
        has_method(before, owner, method),
        before.len() <= after.len(),
        forall|f: int|
            0 <= f < before.len() ==> (#[trigger] after[f]).kind == before[f].kind && after[f].class_name
                == before[f].class_name && after[f].name == before[f].name && after[f].line
                == before[f].line && after[f].col == before[f].col,
    ensures
        has_method(after, owner, method),
{
    let f = choose|f: int| 0 <= f < before.len() && is_method(#[trigger] before[f], owner, method);
    assert(is_method(after[f], owner, method));
}

proof fn lemma_class_read_stays(before: Seq<ClassView>, after: Seq<ClassView>, name: Text)
    requires
        grammar::class_read(before, name),
        before.len() <= after.len(),
        forall|c: int| 0 <= c < before.len() ==> (#[trigger] after[c]).name == before[c].name,
    ensures
        grammar::class_read(after, name),
{
    let c = choose|c: int| 0 <= c < before.len() && (#[trigger] before[c]).name == name;
    assert(after[c].name == name);
}

proof fn lemma_after_class(ctx: Context, st: StateView)
    requires
        sound(st),
    ensures
        sound(grammar::after_class(ctx, st)),
{
    let next = grammar::after_class(ctx, st);
    if grammar::kind_at(st.statement, 1) == Some(TokenKindTag::Name) {
        parser::lemma_owners_stay(StateView { pending: None, ..st }, StateView { pending: None, ..next });
        assert forall|c: int, m: int|
            0 <= c < next.classes.len() && 0 <= m < next.classes[c].methods.len() implies has_method(
            next.functions,
            next.classes[c].name,
            #[trigger] next.classes[c].methods[m],
        ) by {
            assert(c < st.classes.len());
            assert(next.classes[c].methods[m] == st.classes[c].methods[m]);
        }
        assert forall|f: int| 0 <= f < next.functions.len() implies ((#[trigger] next.functions[f]).class_name matches Some(
            owner,
        ) ==> grammar::class_read(next.classes, owner)) by {
            if let Some(owner) = next.functions[f].class_name {
                assert(st.functions[f].class_name == Some(owner));
                lemma_class_read_stays(st.classes, next.classes, owner);
            }
        }
    }
}

proof fn lemma_after_function(ctx: Context, st: StateView)
    requires
        sound(st),
    ensures
        sound(grammar::after_function(ctx, st)),
{
    let next = grammar::after_function(ctx, st);
    let class = grammar::body_class(st);
    parser::lemma_scopes_read(
        st.scopes,
        st.classes.len() as int,
        st.functions.len() as int,
    );
    let added = next.functions.last();
    assert(next.functions =~= st.functions.push(added));
    if let Some(c) = class {
        assert(st.classes[c].name == added.class_name->0);
    }
    lemma_more_functions(st.classes, st.functions, added);
    parser::lemma_owners_stay(StateView { pending: None, ..st }, StateView { pending: None, ..next });
    if let Some(c) = class {
        assert(next.classes.len() == st.classes.len());
        assert(is_method(next.functions[next.functions.len() - 1], st.classes[c].name, next.classes[c].methods.last()));
        assert forall|k: int, m: int|
            0 <= k < next.classes.len() && 0 <= m < next.classes[k].methods.len() implies has_method(
            next.functions,
            next.classes[k].name,
            #[trigger] next.classes[k].methods[m],
        ) by {
            assert(next.classes[k].name == st.classes[k].name);
            if m < st.classes[k].methods.len() {
                assert(next.classes[k].methods[m] == st.classes[k].methods[m]);
            }
        }
        assert forall|f: int| 0 <= f < next.functions.len() implies ((#[trigger] next.functions[f]).class_name matches Some(
            owner,
        ) ==> grammar::class_read(next.classes, owner)) by {
            if let Some(owner) = next.functions[f].class_name {
                lemma_class_read_stays(st.classes, next.classes, owner);
            }
        }
    }
}

proof fn lemma_after_member(ctx: Context, st: StateView, c: int)
    requires
        sound(st),
        0 <= c < st.classes.len(),
    ensures
        sound(grammar::after_member(ctx, st, c)),
{
    let next = grammar::after_member(ctx, st, c);
    if let Some(field) = grammar::declared_field(ctx, st.statement, st.classes[c].bases) {
        let added = grammar::field_reference(field, st.classes[c].name);
        assert(grammar::class_read(st.classes, st.classes[c].name));
        if added.len() == 0 {
            assert(next.functions =~= st.functions);
        } else {
            assert(next.functions =~= st.functions.push(added[0]));
            lemma_more_functions(st.classes, st.functions, added[0]);
        }
        assert(coherent(st.classes, next.functions));
        parser::lemma_owners_stay(st, next);
        assert forall|k: int, m: int|
            0 <= k < next.classes.len() && 0 <= m < next.classes[k].methods.len() implies has_method(
            next.functions,
            next.classes[k].name,
            #[trigger] next.classes[k].methods[m],
        ) by {
            assert(next.classes[k].methods[m] == st.classes[k].methods[m]);
        }
        assert forall|f: int| 0 <= f < next.functions.len() implies ((#[trigger] next.functions[f]).class_name matches Some(
            owner,
        ) ==> grammar::class_read(next.classes, owner)) by {
            if let Some(owner) = next.functions[f].class_name {
                lemma_class_read_stays(st.classes, next.classes, owner);
            }
        }
    }
}

proof fn lemma_after_body(ctx: Context, st: StateView, f: int)
    requires
        sound(st),
        0 <= f < st.functions.len(),
    ensures
        sound(grammar::after_body(ctx, st, f)),
{
    let next = grammar::after_body(ctx, st, f);
    assert forall|c: int, m: int|
        0 <= c < next.classes.len() && 0 <= m < next.classes[c].methods.len() implies has_method(
        next.functions,
        next.classes[c].name,
        #[trigger] next.classes[c].methods[m],
    ) by {
        lemma_has_method_stays(
            st.functions,
            next.functions,
            st.classes[c].name,
            st.classes[c].methods[m],
        );
    }
    assert forall|k: int| 0 <= k < next.functions.len() implies ((#[trigger] next.functions[k]).class_name matches Some(
        owner,
    ) ==> grammar::class_read(next.classes, owner)) by {
        assert(next.functions[k].class_name == st.functions[k].class_name);
    }
}

proof fn lemma_after_statement(ctx: Context, st: StateView)
    requires
        sound(st),
    ensures
        sound(grammar::after_statement(ctx, st)),
{
    parser::lemma_scopes_read(
        st.scopes,
        st.classes.len() as int,
        st.functions.len() as int,
    );
    let sites = grammar::reference_sites(ctx.bytes, st.statement, 2, 2, Seq::empty());
    let referred = grammar::after_reference(ctx, st, sites);
    lemma_more_functions(st.classes, st.functions, referred.functions.last());
    assert(referred.functions =~= st.functions.push(referred.functions.last()));
    parser::lemma_owners_stay(st, referred);
    lemma_after_class(ctx, st);
    lemma_after_function(ctx, st);
    if let Some(c) = grammar::body_class(st) {
        lemma_after_member(ctx, st, c);
    }
    if let Some(f) = grammar::body_function(st) {
        lemma_after_body(ctx, st, f);
    }
    if let Some(next) = grammar::after_top_level(ctx, st) {
        if next.functions == st.functions {
            parser::lemma_owners_stay(st, next);
        }
    }
}

proof fn lemma_open_scopes(scopes: Seq<FrameView>, indent: int) -> (n: int)
    ensures
        0 <= n <= scopes.len(),
        grammar::open_scopes(scopes, indent) == scopes.take(n),
    decreases scopes.len(),
{
    if scopes.len() > 0 && scopes.last().body_indent > indent {
        let n = lemma_open_scopes(scopes.drop_last(), indent);
        assert(scopes.drop_last().take(n) =~= scopes.take(n));
        n
    } else {
        assert(scopes.take(scopes.len() as int) =~= scopes);
        scopes.len() as int
    }
}

proof fn lemma_flushed(ctx: Context, st: StateView)
    requires
        sound(st),
    ensures
        sound(grammar::flushed(ctx, st)),
{
    if st.statement.len() > 0 {
        lemma_after_statement(ctx, st);
        parser::lemma_owners_stay(grammar::after_statement(ctx, st), grammar::flushed(ctx, st));
    }
}

proof fn lemma_after_token(ctx: Context, st: StateView, token: TokenView)
    requires
        sound(st),
    ensures
        sound(grammar::after_token(ctx, st, token)),
{
    let next = grammar::after_token(ctx, st, token);
    lemma_flushed(ctx, st);
    match token.kind {
        TokenKindTag::Dedent => {
            let done = grammar::flushed(ctx, st);
            let _ = lemma_open_scopes(done.scopes, next.indent);
            assert forall|i: int| 0 <= i < next.scopes.len() implies parser::owner_read(
                #[trigger] next.scopes[i],
                next.classes.len() as int,
                next.functions.len() as int,
            ) by {
                assert(next.scopes[i] == done.scopes[i]);
            }
        },
        _ => {
            if token.kind == TokenKindTag::Indent && st.pending is Some {
                assert forall|i: int| 0 <= i < next.scopes.len() implies parser::owner_read(
                    #[trigger] next.scopes[i],
                    next.classes.len() as int,
                    next.functions.len() as int,
                ) by {
                    if i < st.scopes.len() {
                        assert(next.scopes[i] == st.scopes[i]);
                    }
                }
            }
        },
    }
}

proof fn lemma_after_tokens(ctx: Context, st: StateView, tokens: Seq<TokenView>)
    requires
        sound(st),
    ensures
        sound(grammar::after_tokens(ctx, st, tokens)),
    decreases tokens.len(),
{
    if tokens.len() > 0 {
        if tokens[0].kind == TokenKindTag::EndOfFile {
            lemma_flushed(ctx, st);
        } else {
            lemma_after_token(ctx, st, tokens[0]);
            lemma_after_tokens(ctx, grammar::after_token(ctx, st, tokens[0]), tokens.drop_first());
        }
    }
}

/// In every module that is read, each method of a class is among the functions, as a method of that
/// class; and a function that belongs to a class belongs to one of the module.
pub proof fn law_methods_and_functions_agree(path: Text, ctx: Context, tokens: Seq<TokenView>)
    ensures
        coherent(
            grammar::module_of(path, ctx, tokens).classes,
            grammar::module_of(path, ctx, tokens).functions,
        ),
{
    let st = grammar::after_tokens(ctx, grammar::initial(), tokens);
    lemma_after_tokens(ctx, grammar::initial(), tokens);
    let module = grammar::module_of(path, ctx, tokens);
    assert forall|c: int, m: int|
        0 <= c < module.classes.len() && 0 <= m < module.classes[c].methods.len() implies has_method(
        module.functions,
        module.classes[c].name,
        #[trigger] module.classes[c].methods[m],
    ) by {
        assert(module.classes[c].methods[m] == st.classes[c].methods[m]);
    }
    assert forall|f: int| 0 <= f < module.functions.len() implies ((
    #[trigger] module.functions[f]).class_name matches Some(owner) ==> grammar::class_read(
        module.classes,
        owner,
    )) by {
        if let Some(owner) = module.functions[f].class_name {
            assert(st.functions[f].class_name == Some(owner));
            lemma_class_read_stays(st.classes, module.classes, owner);
        }
    }
}

/// In every module that is read, no field is required whose type is an enum of the module.
pub proof fn law_fields_of_enum_types_are_optional(path: Text, ctx: Context, tokens: Seq<TokenView>, c: int, f: int)
    requires
        0 <= c < grammar::module_of(path, ctx, tokens).classes.len(),
        0 <= f < grammar::module_of(path, ctx, tokens).classes[c].fields.len(),
    ensures
        ({
            let module = grammar::module_of(path, ctx, tokens);
            let field = module.classes[c].fields[f];
            field.type_ref is Some && grammar::names_enum(module.classes, field.type_ref->0)
                ==> !field.required
        }),
{
    let st = grammar::after_tokens(ctx, grammar::initial(), tokens);
    let module = grammar::module_of(path, ctx, tokens);
    let field = module.classes[c].fields[f];
    if field.type_ref is Some && grammar::names_enum(module.classes, field.type_ref->0) {
        let k = choose|k: int|
            0 <= k < module.classes.len() && (#[trigger] module.classes[k]).name == field.type_ref->0
                && annotations::has_enum_base(module.classes[k].bases);
        assert(st.classes[k].name == module.classes[k].name);
        assert(st.classes[k].bases == module.classes[k].bases);
        assert(grammar::names_enum(st.classes, field.type_ref->0));
    }
}

} // verus!
