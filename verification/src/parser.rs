//! Reading a module: from its tokens, or from its bytes.
use rustc_hash::FxHashSet;
use vstd::prelude::*;

use crate::annotations;
use crate::annotations::is_enum_class;
use crate::grammar;
use crate::grammar::decode;
use crate::grammar::Context;
use crate::grammar::FrameView;
use crate::grammar::OwnerView;
use crate::grammar::StateView;
use crate::lines::LineIndex;
use crate::model;
use crate::model::CallSite;
use crate::model::ClassInfo;
use crate::model::ClassView;
use crate::model::FieldInfo;
use crate::model::FieldView;
use crate::model::FunctionInfo;
use crate::model::FunctionView;
use crate::model::ImportBinding;
use crate::model::MethodInfo;
use crate::model::ModuleInfo;
use crate::model::ModuleView;
use crate::model::RangePoint;
use crate::names::names_contain;
use crate::names::names_insert;
use crate::names::names_new;
use crate::names::NameMap;
use crate::paths;
use crate::paths::module_name_from_path;
use crate::paths::package_name_for_module;
use crate::paths::PathError;
use crate::statements::assigns_name;
use crate::statements::extract_call_sites;
use crate::statements::extract_class_bases;
use crate::statements::extract_reference_sites;
use crate::statements::is_kind;
use crate::statements::parse_assignment_field_statement;
use crate::statements::parse_dotted_name;
use crate::statements::parse_field_statement;
use crate::statements::parse_from_import_statement;
use crate::statements::parse_import_statement;
use crate::statements::point_at;
use crate::statements::reference_range_from_text;
use crate::statements::slice;
use crate::statements::token_name;
use crate::text::cat3;
use crate::text::join_text;
use crate::text::split_text;
use crate::text::Text;
use crate::tokens;
use crate::tokens::tokenize;
use crate::tokens::TokenKindTag;
use crate::tokens::TokenSpan;
use crate::tokens::TokenView;

verus! {

/// Whose body a scope is.
#[derive(Debug, Clone, Copy)]
pub enum ScopeKind {
    Class(usize),
    Function(usize),
}

/// A scope: its owner, and how deep its body is indented.
#[derive(Debug, Clone, Copy)]
pub struct ScopeFrame {
    pub body_indent: usize,
    pub kind: ScopeKind,
}

impl DeepView for ScopeFrame {
    type V = FrameView;

    open spec fn deep_view(&self) -> FrameView {
        FrameView {
            body_indent: self.body_indent as int,
            owner: match self.kind {
                ScopeKind::Class(i) => OwnerView::Class(i as int),
                ScopeKind::Function(i) => OwnerView::Function(i as int),
            },
        }
    }
}

/// Whether the owner of a scope is among the classes and functions read.
pub open spec fn owner_read(frame: FrameView, classes: int, functions: int) -> bool {
    match frame.owner {
        OwnerView::Class(i) => 0 <= i < classes,
        OwnerView::Function(i) => 0 <= i < functions,
    }
}

/// Whether the owners of all scopes have been read.
pub open spec fn owners_read(st: StateView) -> bool {
    &&& st.pending is Some ==> owner_read(
        st.pending->0,
        st.classes.len() as int,
        st.functions.len() as int,
    )
    &&& forall|i: int|
        0 <= i < st.scopes.len() ==> owner_read(
            #[trigger] st.scopes[i],
            st.classes.len() as int,
            st.functions.len() as int,
        )
}

/// The innermost scopes belong to what has been read.
pub proof fn lemma_scopes_read(scopes: Seq<FrameView>, classes: int, functions: int)
    requires
        forall|i: int| 0 <= i < scopes.len() ==> owner_read(#[trigger] scopes[i], classes, functions),
    ensures
        grammar::class_scope(scopes) matches Some(frame) ==> frame.owner is Class && owner_read(
            frame,
            classes,
            functions,
        ),
        grammar::function_scope(scopes) matches Some(frame) ==> frame.owner is Function
            && owner_read(frame, classes, functions),
    decreases scopes.len(),
{
    if scopes.len() > 0 {
        assert(owner_read(scopes[scopes.len() - 1], classes, functions));
        assert forall|i: int| 0 <= i < scopes.drop_last().len() implies owner_read(
            #[trigger] scopes.drop_last()[i],
            classes,
            functions,
        ) by {
            assert(owner_read(scopes[i], classes, functions));
        }
        lemma_scopes_read(scopes.drop_last(), classes, functions);
    }
}

/// What has been read of a module so far.
pub struct ModuleParser<'a> {
    pub path: String,
    pub module_name: String,
    pub package_name: String,
    pub line_index: LineIndex<'a>,
    pub current_indent: usize,
    pub pending_scope: Option<ScopeFrame>,
    pub scopes: Vec<ScopeFrame>,
    pub statement_tokens: Vec<TokenSpan>,
    pub imports: NameMap<ImportBinding>,
    pub star_imports: Vec<String>,
    pub classes: Vec<ClassInfo>,
    pub functions: Vec<FunctionInfo>,
}

impl<'a> ModuleParser<'a> {
    /// What the meaning of a statement depends on besides what came before it.
    pub open spec fn context(&self) -> Context {
        Context {
            bytes: self.line_index.bytes@,
            module_name: self.module_name@,
            package_name: self.package_name@,
        }
    }

    /// What has been read.
    pub open spec fn state(&self) -> StateView {
        StateView {
            indent: self.current_indent as int,
            pending: self.pending_scope.deep_view(),
            scopes: self.scopes.deep_view(),
            statement: self.statement_tokens.deep_view(),
            imports: self.imports.deep_entries(),
            star_imports: self.star_imports.deep_view(),
            classes: self.classes.deep_view(),
            functions: self.functions.deep_view(),
        }
    }

    /// The tables hold together, and scopes belong to what has been read.
    pub open spec fn wf(&self) -> bool {
        &&& self.line_index.wf()
        &&& self.imports.wf()
        &&& tokens::countable(self.statement_tokens.deep_view())
        &&& owners_read(self.state())
        &&& self.current_indent < usize::MAX
    }

    /// Whether another parser reads the same module.
    pub open spec fn same_module(&self, other: &ModuleParser) -> bool {
        self.path == other.path && self.context() == other.context()
    }

    /// A parser that has read nothing.
    pub fn new(path: String, module_name: String, package_name: String, bytes: &'a [u8]) -> (parser: Self)
        ensures
            parser.wf(),
            parser.state() == grammar::initial(),
            parser.path == path,
            parser.context() == (Context {
                bytes: bytes@,
                module_name: module_name@,
                package_name: package_name@,
            }),
    {
        let parser = ModuleParser {
            path,
            module_name,
            package_name,
            line_index: LineIndex::new(bytes),
            current_indent: 0,
            pending_scope: None,
            scopes: Vec::new(),
            statement_tokens: Vec::new(),
            imports: NameMap::new(),
            star_imports: Vec::new(),
            classes: Vec::new(),
            functions: Vec::new(),
        };
        assert(parser.imports.deep_entries() =~= Map::empty());
        assert(parser.state() =~= grammar::initial());
        parser
    }

    /// The innermost scope of a class.
    fn current_class_scope(&self) -> (frame: Option<ScopeFrame>)
        ensures
            frame.deep_view() == grammar::class_scope(self.state().scopes),
    {
        let ghost all = self.scopes.deep_view();
        let mut i: usize = self.scopes.len();
        assert(all.take(i as int) =~= all);
        while i > 0
            invariant
                i <= self.scopes@.len(),
                all == self.scopes.deep_view(),
                grammar::class_scope(all.take(i as int)) == grammar::class_scope(all),
            decreases i,
        {
            let frame = self.scopes[i - 1];
            assert(all.take(i as int).last() == frame.deep_view());
            assert(all.take(i as int).drop_last() =~= all.take(i - 1));
            match frame.kind {
                ScopeKind::Class(_) => {
                    return Some(frame);
                },
                ScopeKind::Function(_) => {},
            }
            i = i - 1;
        }
        None
    }

    /// The innermost scope of a function.
    fn current_function_scope(&self) -> (frame: Option<ScopeFrame>)
        ensures
            frame.deep_view() == grammar::function_scope(self.state().scopes),
    {
        let ghost all = self.scopes.deep_view();
        let mut i: usize = self.scopes.len();
        assert(all.take(i as int) =~= all);
        while i > 0
            invariant
                i <= self.scopes@.len(),
                all == self.scopes.deep_view(),
                grammar::function_scope(all.take(i as int)) == grammar::function_scope(all),
            decreases i,
        {
            let frame = self.scopes[i - 1];
            assert(all.take(i as int).last() == frame.deep_view());
            assert(all.take(i as int).drop_last() =~= all.take(i - 1));
            match frame.kind {
                ScopeKind::Function(_) => {
                    return Some(frame);
                },
                ScopeKind::Class(_) => {},
            }
            i = i - 1;
        }
        None
    }

    /// The class in whose body, and not deeper, the statement stands.
    fn class_body_target(&self) -> (class: Option<usize>)
        requires
            self.wf(),
        ensures
            match class {
                Some(c) => grammar::body_class(self.state()) == Some(c as int) && c < self.classes@.len(),
                None => grammar::body_class(self.state()) is None,
            },
    {
        proof {
            lemma_scopes_read(
                self.state().scopes,
                self.classes@.len() as int,
                self.functions@.len() as int,
            );
        }
        if self.current_function_scope().is_some() {
            return None;
        }
        match self.current_class_scope() {
            Some(frame) => {
                if frame.body_indent != self.current_indent {
                    return None;
                }
                match frame.kind {
                    ScopeKind::Class(c) => Some(c),
                    ScopeKind::Function(_) => None,
                }
            },
            None => None,
        }
    }

    /// The function in whose body the statement stands.
    fn current_function_target(&self) -> (function: Option<usize>)
        requires
            self.wf(),
        ensures
            match function {
                Some(f) => grammar::body_function(self.state()) == Some(f as int) && f
                    < self.functions@.len(),
                None => grammar::body_function(self.state()) is None,
            },
    {
        proof {
            lemma_scopes_read(
                self.state().scopes,
                self.classes@.len() as int,
                self.functions@.len() as int,
            );
        }
        match self.current_function_scope() {
            Some(frame) => match frame.kind {
                ScopeKind::Function(f) => Some(f),
                ScopeKind::Class(_) => None,
            },
            None => None,
        }
    }

    /// Whether a class of this name has been read.
    fn class_read(&self, name: &String) -> (read: bool)
        ensures
            read == grammar::class_read(self.state().classes, name@),
    {
        let ghost all = self.classes.deep_view();
        let mut i: usize = 0;
        while i < self.classes.len()
            invariant
                i <= self.classes@.len(),
                all == self.classes.deep_view(),
                forall|k: int| 0 <= k < i ==> (#[trigger] all[k]).name != name@,
            decreases self.classes@.len() - i,
        {
            assert(all[i as int] == self.classes@[i as int].deep_view());
            if self.classes[i].name == *name {
                return true;
            }
            i = i + 1;
        }
        false
    }

    /// What the right side of the assignment binds its name to, where it does nothing but name a
    /// known class or module.
    fn resolve_alias_binding(&self) -> (binding: Option<ImportBinding>)
        requires
            self.wf(),
        ensures
            binding.deep_view() == grammar::alias_binding(self.context(), self.state()),
    {
        let ghost st = self.state();
        match parse_dotted_name(self.line_index.bytes, &self.statement_tokens, 2) {
            None => None,
            Some((path, end)) => {
                if end != self.statement_tokens.len() {
                    return None;
                }
                let mut parts = split_text(path.as_str(), Some('.'));
                let ghost all = parts.deep_view();
                let head = parts.remove(0);
                assert(head@ == all[0]);
                assert(parts.deep_view() =~= all.drop_first());
                if parts.len() == 0 {
                    return match self.imports.get(head.as_str()) {
                        Some(binding) => Some(binding.clone()),
                        None => if self.class_read(&head) {
                            Some(
                                ImportBinding::ImportedName {
                                    module: self.module_name.clone(),
                                    name: head,
                                },
                            )
                        } else {
                            None
                        },
                    };
                }
                match self.imports.get(head.as_str()) {
                    None => None,
                    Some(ImportBinding::Module { module }) => {
                        assert(st.imports[head@] == (model::BindingView::Module { module: module@ }));
                        Some(member_of(module.as_str(), parts))
                    },
                    Some(ImportBinding::ImportedName { module, name }) => {
                        assert(st.imports[head@] == (model::BindingView::ImportedName {
                            module: module@,
                            name: name@,
                        }));
                        let mut qualified: Vec<String> = Vec::new();
                        qualified.push(name.clone());
                        qualified.append(&mut parts);
                        assert(qualified.deep_view() =~= seq![name@] + all.drop_first());
                        Some(member_of(module.as_str(), qualified))
                    },
                }
            },
        }
    }

    /// Reads a statement at the top of the module, where it is one of those that only it has.
    fn process_top_level(&mut self) -> (done: bool)
        requires
            old(self).wf(),
            old(self).state().statement.len() > 0,
        ensures
            final(self).wf(),
            final(self).same_module(old(self)),
            match grammar::after_top_level(old(self).context(), old(self).state()) {
                Some(next) => done && final(self).state() == next,
                None => !done && final(self).state() == old(self).state(),
            },
            final(self).current_indent == old(self).current_indent,
    {
        let ghost ctx = self.context();
        let ghost st = self.state();
        let bytes = self.line_index.bytes;
        if self.statement_tokens[0].kind == TokenKindTag::Import {
            parse_import_statement(bytes, &self.statement_tokens, &mut self.imports);
            return true;
        }
        if self.statement_tokens[0].kind == TokenKindTag::From {
            parse_from_import_statement(
                bytes,
                self.package_name.as_str(),
                &self.statement_tokens,
                &mut self.imports,
                &mut self.star_imports,
                Ghost(ctx.module_name),
            );
            return true;
        }
        if !assigns_name(&self.statement_tokens) {
            return false;
        }
        let name = match token_name(&self.statement_tokens, 0) {
            Some(name) => name,
            None => {
                return false;
            },
        };
        if let Some(binding) = self.resolve_alias_binding() {
            let ghost bound = binding.deep_view();
            self.imports.insert(name, binding);
            assert(self.imports.deep_entries() =~= st.imports.insert(name@, bound));
            return true;
        }
        let sites = extract_reference_sites(&mut self.line_index, &self.statement_tokens, 2);
        assert(sites.deep_view().len() == sites@.len());
        if sites.len() == 0 {
            return false;
        }
        assert(st.statement[0].start < u32::MAX);
        let at = point_at(&mut self.line_index, self.statement_tokens[0].start);
        self.push_function(
            FunctionInfo {
                name,
                line: at.line,
                col: at.col,
                kind: 13,
                class_name: None,
                calls: sites,
            },
        );
        true
    }

    /// Adds a function.
    fn push_function(&mut self, function: FunctionInfo)
        requires
            old(self).wf(),
        ensures
            final(self).wf(),
            final(self).same_module(old(self)),
            final(self).state() == (StateView {
                functions: old(self).state().functions.push(function.deep_view()),
                ..old(self).state()
            }),
    {
        let ghost before = self.functions.deep_view();
        let ghost st = self.state();
        let ghost viewed = function.deep_view();
        self.functions.push(function);
        assert(self.functions.deep_view() =~= before.push(viewed));
        proof {
            lemma_owners_stay(st, self.state());
        }
    }

    /// Reads a statement that starts with `class`.
    fn parse_class_statement(&mut self)
        requires
            old(self).wf(),
            old(self).state().statement.len() > 0,
        ensures
            final(self).wf(),
            final(self).same_module(old(self)),
            final(self).state() == grammar::after_class(old(self).context(), old(self).state()),
    {
        let ghost ctx = self.context();
        let ghost st = self.state();
        if !is_kind(&self.statement_tokens, 1, TokenKindTag::Name) {
            return;
        }
        let bytes = self.line_index.bytes;
        let bases = extract_class_bases(bytes, &self.statement_tokens, 2);
        assert(st.statement[1].start < u32::MAX);
        let start = self.statement_tokens[1].start;
        let end = self.statement_tokens[1].end;
        let at = point_at(&mut self.line_index, start);
        let class_index = self.classes.len();
        let class = ClassInfo {
            name: slice(bytes, start, end),
            line: at.line,
            col: at.col,
            bases,
            methods: Vec::new(),
            fields: Vec::new(),
        };
        let ghost viewed = class.deep_view();
        assert(viewed.methods =~= Seq::empty());
        assert(viewed.fields =~= Seq::empty());
        self.classes.push(class);
        assert(self.classes.deep_view() =~= st.classes.push(viewed));
        self.pending_scope = Some(
            ScopeFrame { body_indent: self.current_indent + 1, kind: ScopeKind::Class(class_index) },
        );
        proof {
            lemma_owners_stay(
                StateView { pending: None, ..st },
                StateView { pending: None, ..self.state() },
            );
        }
        assert(self.state() == grammar::after_class(ctx, st));
    }

    /// Reads the definition of a function or method.
    fn parse_function_statement(&mut self)
        requires
            old(self).wf(),
            grammar::defines_function(old(self).state().statement),
        ensures
            final(self).wf(),
            final(self).same_module(old(self)),
            final(self).state() == grammar::after_function(old(self).context(), old(self).state()),
    {
        let ghost ctx = self.context();
        let ghost st = self.state();
        let bytes = self.line_index.bytes;
        let class = self.class_body_target();
        let name_index: usize = if self.statement_tokens[0].kind == TokenKindTag::Async { 2 } else { 1 };
        let start = self.statement_tokens[name_index].start;
        let end = self.statement_tokens[name_index].end;
        assert(st.statement[name_index as int].start < u32::MAX);
        let name = slice(bytes, start, end);
        let at = point_at(&mut self.line_index, start);
        let kind: u32 = if class.is_some() { 12 } else { 6 };
        let class_name = match class {
            Some(c) => {
                let method = MethodInfo { name: name.clone(), line: at.line, col: at.col };
                let ghost viewed = method.deep_view();
                let ghost methods = st.classes[c as int].methods;
                self.classes[c].methods.push(method);
                assert(self.classes@[c as int].methods.deep_view() =~= methods.push(viewed));
                assert(self.classes.deep_view() =~= grammar::with_method(
                    st.classes,
                    Some(c as int),
                    viewed,
                ));
                Some(self.classes[c].name.clone())
            },
            None => None,
        };
        let function_index = self.functions.len();
        let function = FunctionInfo {
            name,
            line: at.line,
            col: at.col,
            kind,
            class_name,
            calls: Vec::new(),
        };
        let ghost viewed = function.deep_view();
        assert(viewed.calls =~= Seq::empty());
        self.functions.push(function);
        assert(self.functions.deep_view() =~= st.functions.push(viewed));
        self.pending_scope = Some(
            ScopeFrame {
                body_indent: self.current_indent + 1,
                kind: ScopeKind::Function(function_index),
            },
        );
        proof {
            lemma_owners_stay(
                StateView { pending: None, ..st },
                StateView { pending: None, ..self.state() },
            );
        }
        assert(self.state() == grammar::after_function(ctx, st));
    }

    /// Reads another statement in the body of a class.
    fn parse_member_statement(&mut self, c: usize)
        requires
            old(self).wf(),
            c < old(self).classes@.len(),
        ensures
            final(self).wf(),
            final(self).same_module(old(self)),
            final(self).state() == grammar::after_member(
                old(self).context(),
                old(self).state(),
                c as int,
            ),
    {
        let ghost ctx = self.context();
        let ghost st = self.state();
        let declared = match parse_field_statement(
            &mut self.line_index,
            &self.statement_tokens,
            Ghost(ctx),
        ) {
            Some(field) => Some(field),
            None => parse_assignment_field_statement(
                &mut self.line_index,
                &self.statement_tokens,
                &self.classes[c].bases,
                Ghost(ctx),
            ),
        };
        let field = match declared {
            Some(field) => field,
            None => {
                return;
            },
        };
        let ghost viewed = field.deep_view();
        assert(Some(viewed) == grammar::declared_field(ctx, st.statement, st.classes[c as int].bases));
        let reference = self.field_reference(&field, c);
        let ghost fields = st.classes[c as int].fields;
        self.classes[c].fields.push(field);
        assert(self.classes@[c as int].fields.deep_view() =~= fields.push(viewed));
        assert(self.classes.deep_view() =~= st.classes.update(
            c as int,
            ClassView { fields: fields.push(viewed), ..st.classes[c as int] },
        ));
        assert(owners_read(self.state()));
        match reference {
            Some(function) => {
                let ghost made = function.deep_view();
                self.push_function(function);
                assert(st.functions.push(made) =~= st.functions + seq![made]);
            },
            None => {
                assert(st.functions + Seq::<FunctionView>::empty() =~= st.functions);
            },
        }
        assert(self.state() == grammar::after_member(ctx, st, c as int));
    }

    /// The reference that a field of class `c` makes to its type.
    fn field_reference(&self, field: &FieldInfo, c: usize) -> (reference: Option<FunctionInfo>)
        requires
            c < self.classes@.len(),
            field.type_line is Some,
            field.type_col is Some,
        ensures
            grammar::field_reference(field.deep_view(), self.state().classes[c as int].name) == (
            match reference {
                Some(function) => seq![function.deep_view()],
                None => Seq::empty(),
            }),
    {
        match (&field.type_ref, field.type_line, field.type_col) {
            (Some(target), Some(line), Some(col)) => {
                let range = reference_range_from_text(RangePoint { line, col }, target.as_str());
                let mut calls: Vec<CallSite> = Vec::new();
                calls.push(CallSite { raw_target: target.clone(), range });
                let function = FunctionInfo {
                    name: field.name.clone(),
                    line: field.line,
                    col: field.col,
                    kind: 8,
                    class_name: Some(self.classes[c].name.clone()),
                    calls,
                };
                assert(function.deep_view().calls =~= seq![
                    model::CallView { raw_target: target@, range },
                ]);
                Some(function)
            },
            _ => None,
        }
    }

    /// Reads another statement in the body of a function.
    fn parse_call_statement(&mut self, f: usize)
        requires
            old(self).wf(),
            f < old(self).functions@.len(),
        ensures
            final(self).wf(),
            final(self).same_module(old(self)),
            final(self).state() == grammar::after_body(old(self).context(), old(self).state(), f as int),
    {
        let ghost ctx = self.context();
        let ghost st = self.state();
        let mut sites = extract_call_sites(&mut self.line_index, &self.statement_tokens);
        let ghost made = sites.deep_view();
        let ghost calls = st.functions[f as int].calls;
        self.functions[f].calls.append(&mut sites);
        assert(self.functions@[f as int].calls.deep_view() =~= calls + made);
        assert(self.functions.deep_view() =~= st.functions.update(
            f as int,
            FunctionView { calls: calls + made, ..st.functions[f as int] },
        ));
        assert(self.state() == grammar::after_body(ctx, st, f as int));
    }

    /// Whether the statement defines a function.
    fn is_function_statement(&self) -> (r: bool)
        ensures
            r == grammar::defines_function(self.state().statement),
    {
        let t = &self.statement_tokens;
        (is_kind(t, 0, TokenKindTag::Def) && is_kind(t, 1, TokenKindTag::Name)) || (is_kind(
            t,
            0,
            TokenKindTag::Async,
        ) && is_kind(t, 1, TokenKindTag::Def) && is_kind(t, 2, TokenKindTag::Name))
    }

    /// Reads the statement that has been gathered.
    fn process_statement(&mut self)
        requires
            old(self).wf(),
            old(self).state().statement.len() > 0,
        ensures
            final(self).wf(),
            final(self).same_module(old(self)),
            final(self).state() == grammar::after_statement(old(self).context(), old(self).state()),
    {
        let in_function = self.current_function_scope().is_some();
        let in_class = self.current_class_scope().is_some();
        if !in_class && !in_function {
            if self.process_top_level() {
                return;
            }
        }
        if !in_function && self.statement_tokens[0].kind == TokenKindTag::Class {
            self.parse_class_statement();
            return;
        }
        if self.is_function_statement() {
            self.parse_function_statement();
            return;
        }
        if let Some(c) = self.class_body_target() {
            self.parse_member_statement(c);
            return;
        }
        if let Some(f) = self.current_function_target() {
            self.parse_call_statement(f);
        }
    }

    /// Ends the statement that has been gathered, if there is one.
    fn finish_statement(&mut self)
        requires
            old(self).wf(),
        ensures
            final(self).wf(),
            final(self).same_module(old(self)),
            final(self).state() == grammar::flushed(old(self).context(), old(self).state()),
    {
        if self.statement_tokens.len() == 0 {
            return;
        }
        self.process_statement();
        let ghost st = self.state();
        self.statement_tokens.clear();
        assert(self.statement_tokens.deep_view() =~= Seq::empty());
        assert(self.state() == (StateView { statement: Seq::empty(), ..st }));
    }

    /// Closes the scopes that the indentation ends.
    fn trim_scopes(&mut self)
        requires
            old(self).wf(),
        ensures
            final(self).wf(),
            final(self).same_module(old(self)),
            final(self).state() == (StateView {
                scopes: grammar::open_scopes(old(self).state().scopes, old(self).state().indent),
                ..old(self).state()
            }),
    {
        let ghost st = self.state();
        let ghost ctx = self.context();
        while self.scopes.len() > 0 && self.scopes[self.scopes.len() - 1].body_indent
            > self.current_indent
            invariant
                self.wf(),
                self.context() == ctx,
                self.path == old(self).path,
                self.state() == (StateView { scopes: self.state().scopes, ..st }),
                grammar::open_scopes(self.state().scopes, st.indent) == grammar::open_scopes(
                    st.scopes,
                    st.indent,
                ),
            decreases self.scopes@.len(),
        {
            let ghost now = self.state();
            let _ = self.scopes.pop();
            assert(self.scopes.deep_view() =~= now.scopes.drop_last());
            assert forall|i: int| 0 <= i < self.state().scopes.len() implies owner_read(
                #[trigger] self.state().scopes[i],
                st.classes.len() as int,
                st.functions.len() as int,
            ) by {
                assert(owner_read(
                    now.scopes[i],
                    st.classes.len() as int,
                    st.functions.len() as int,
                ));
            }
        }
    }

    /// Reads one more token, which is not the end of the file.
    fn push_token(&mut self, token: TokenSpan)
        requires
            old(self).wf(),
            old(self).current_indent < usize::MAX - 1,
            token.start < u32::MAX,
            token.end < u32::MAX,
        ensures
            final(self).wf(),
            final(self).same_module(old(self)),
            final(self).state() == grammar::after_token(
                old(self).context(),
                old(self).state(),
                token.deep_view(),
            ),
            final(self).current_indent <= old(self).current_indent + 1,
    {
        let ghost ctx = self.context();
        let ghost st = self.state();
        match token.kind {
            TokenKindTag::Indent => {
                self.current_indent = self.current_indent + 1;
                if let Some(frame) = self.pending_scope {
                    self.pending_scope = None;
                    self.scopes.push(frame);
                    assert(self.scopes.deep_view() =~= st.scopes.push(frame.deep_view()));
                }
                assert(self.state() == grammar::after_token(ctx, st, token.deep_view()));
            },
            TokenKindTag::Dedent => {
                self.finish_statement();
                let ghost done = self.state();
                self.current_indent = self.current_indent.saturating_sub(1);
                assert(self.state() == (StateView { indent: grammar::less_one(done.indent), ..done }));
                self.trim_scopes();
            },
            TokenKindTag::Newline => {
                self.finish_statement();
            },
            _ => {
                if self.statement_tokens.len() == 0 {
                    if let Some(frame) = self.pending_scope {
                        if self.current_indent < frame.body_indent {
                            self.pending_scope = None;
                        }
                    }
                }
                let ghost viewed = token.deep_view();
                self.statement_tokens.push(token);
                assert(self.statement_tokens.deep_view() =~= st.statement.push(viewed));
                assert(self.state() == grammar::after_token(ctx, st, viewed));
            },
        }
    }

    /// Reads all tokens up to the end of the file.
    pub fn parse(&mut self, source_tokens: Vec<TokenSpan>)
        requires
            old(self).wf(),
            old(self).current_indent + source_tokens@.len() < usize::MAX,
            tokens::countable(source_tokens.deep_view()),
        ensures
            final(self).wf(),
            final(self).same_module(old(self)),
            final(self).state() == grammar::after_tokens(
                old(self).context(),
                old(self).state(),
                source_tokens.deep_view(),
            ),
    {
        let ghost ctx = self.context();
        let ghost all = source_tokens.deep_view();
        let ghost goal = grammar::after_tokens(ctx, self.state(), all);
        let mut i: usize = 0;
        assert(all.skip(0) =~= all);
        while i < source_tokens.len()
            invariant
                i <= source_tokens@.len(),
                all == source_tokens.deep_view(),
                tokens::countable(all),
                self.wf(),
                self.context() == ctx,
                self.path == old(self).path,
                self.current_indent + (source_tokens@.len() - i) < usize::MAX,
                grammar::after_tokens(ctx, self.state(), all.skip(i as int)) == goal,
                grammar::after_tokens(old(self).context(), old(self).state(), all) == goal,
                old(self).context() == ctx,
            decreases source_tokens@.len() - i,
        {
            let token = TokenSpan {
                kind: source_tokens[i].kind,
                name: source_tokens[i].name.clone(),
                start: source_tokens[i].start,
                end: source_tokens[i].end,
            };
            assert(token.deep_view() == all[i as int]);
            assert(all.skip(i as int)[0] == all[i as int]);
            assert(all.skip(i as int).drop_first() =~= all.skip(i as int + 1));
            if token.kind == TokenKindTag::EndOfFile {
                self.finish_statement();
                return;
            }
            self.push_token(token);
            i = i + 1;
        }
        assert(all.skip(i as int) =~= Seq::<TokenView>::empty());
    }

    /// The module that has been read.
    pub fn finish(self) -> (module: ModuleInfo)
        requires
            self.wf(),
        ensures
            module.wf(),
            module.path@ == self.path@,
            module.module_name@ == self.module_name@,
            module.deep_view().imports == self.state().imports,
            module.deep_view().star_imports == self.state().star_imports,
            module.deep_view().classes == grammar::settled(self.state().classes),
            module.deep_view().functions == self.state().functions,
    {
        let classes = settle(self.classes);
        let class_index = index_classes(&classes);
        ModuleInfo {
            path: self.path,
            module_name: self.module_name,
            imports: self.imports,
            star_imports: self.star_imports,
            classes,
            class_index,
            functions: self.functions,
        }
    }
}

/// The names of the enums among classes.
fn enum_names(classes: &Vec<ClassInfo>) -> (names: FxHashSet<String>)
    ensures
        forall|name: Text|
            crate::names::names_of(names).contains(name) <==> grammar::names_enum(classes.deep_view(), name),
{
    let ghost all = classes.deep_view();
    let mut names = names_new();
    let mut i: usize = 0;
    assert(forall|name: Text| !grammar::names_enum(all.take(0), name));
    while i < classes.len()
        invariant
            i <= classes@.len(),
            all == classes.deep_view(),
            forall|name: Text|
                crate::names::names_of(names).contains(name) <==> grammar::names_enum(all.take(i as int), name),
        decreases classes@.len() - i,
    {
        let ghost now = all.take(i as int);
        let ghost next = all.take(i as int + 1);
        let ghost held = crate::names::names_of(names);
        assert(next[i as int] == classes@[i as int].deep_view());
        let enumerates = is_enum_class(&classes[i].bases);
        if enumerates {
            let _ = names_insert(&mut names, classes[i].name.clone());
        }
        assert forall|name: Text|
            crate::names::names_of(names).contains(name) <==> grammar::names_enum(next, name) by {
            if grammar::names_enum(now, name) {
                let k = choose|k: int|
                    0 <= k < now.len() && (#[trigger] now[k]).name == name
                        && annotations::has_enum_base(now[k].bases);
                assert(next[k] == now[k]);
            }
            if grammar::names_enum(next, name) {
                let k = choose|k: int|
                    0 <= k < next.len() && (#[trigger] next[k]).name == name
                        && annotations::has_enum_base(next[k].bases);
                if k < i {
                    assert(now[k] == next[k]);
                    assert(grammar::names_enum(now, name));
                }
            }
            assert(held.contains(name) <==> grammar::names_enum(now, name));
        }
        i = i + 1;
    }
    assert(all.take(i as int) =~= all);
    names
}

/// The fields of a class that is no enum, once the enums of the module are known.
fn settle_fields(fields: Vec<FieldInfo>, enums: &FxHashSet<String>, Ghost(classes): Ghost<Seq<ClassView>>) -> (settled: Vec<FieldInfo>)
    requires
        forall|name: Text| crate::names::names_of(*enums).contains(name) <==> grammar::names_enum(classes, name),
    ensures
        settled.deep_view() == fields.deep_view().map_values(
            |field: FieldView| grammar::settled_field(classes, field),
        ),
{
    let ghost all = fields.deep_view();
    let mut fields = fields;
    let mut i: usize = 0;
    while i < fields.len()
        invariant
            i <= fields@.len() == all.len(),
            forall|name: Text|
                crate::names::names_of(*enums).contains(name) <==> grammar::names_enum(classes, name),
            forall|k: int|
                0 <= k < i ==> (#[trigger] fields@[k]).deep_view() == grammar::settled_field(
                    classes,
                    all[k],
                ),
            forall|k: int| i <= k < fields@.len() ==> (#[trigger] fields@[k]).deep_view() == all[k],
        decreases fields@.len() - i,
    {
        assert(fields@[i as int].deep_view() == all[i as int]);
        let typed_by_enum = match &fields[i].type_ref {
            Some(name) => names_contain(enums, name.as_str()),
            None => false,
        };
        if typed_by_enum {
            fields[i].required = false;
        }
        i = i + 1;
    }
    assert(fields.deep_view() =~= all.map_values(
        |field: FieldView| grammar::settled_field(classes, field),
    ));
    fields
}

/// The classes of a module once all are known: no field with an enum of the module as its type is
/// required.
fn settle(classes: Vec<ClassInfo>) -> (settled: Vec<ClassInfo>)
    ensures
        settled.deep_view() == grammar::settled(classes.deep_view()),
{
    let ghost all = classes.deep_view();
    let enums = enum_names(&classes);
    let total = classes.len();
    let mut rest = classes;
    let mut settled: Vec<ClassInfo> = Vec::new();
    let mut i: usize = 0;
    while rest.len() > 0
        invariant
            i + rest@.len() == all.len() == total,
            settled@.len() == i,
            forall|k: int| 0 <= k < rest@.len() ==> (#[trigger] rest@[k]).deep_view() == all[i + k],
            forall|name: Text| crate::names::names_of(enums).contains(name) <==> grammar::names_enum(all, name),
            forall|k: int|
                0 <= k < i ==> (#[trigger] settled@[k]).deep_view() == grammar::settled_class(
                    all,
                    all[k],
                ),
        decreases rest@.len(),
    {
        let ghost before = rest@;
        let class = rest.remove(0);
        assert(before[0].deep_view() == all[i as int]);
        assert forall|k: int| 0 <= k < rest@.len() implies (#[trigger] rest@[k]).deep_view() == all[i + 1
            + k] by {
            assert(rest@[k] == before[k + 1]);
        }
        let fields = settle_fields(class.fields, &enums, Ghost(all));
        settled.push(
            ClassInfo {
                name: class.name,
                line: class.line,
                col: class.col,
                bases: class.bases,
                methods: class.methods,
                fields,
            },
        );
        assert(settled@[i as int].deep_view() == grammar::settled_class(all, all[i as int]));
        i = i + 1;
    }
    assert(settled.deep_view() =~= grammar::settled(all));
    settled
}

/// Where the last class of each name stands.
fn index_classes(classes: &Vec<ClassInfo>) -> (index: NameMap<usize>)
    ensures
        index.wf(),
        forall|name: Text| #[trigger]
            index.entries().contains_key(name) <==> model::class_slot(classes.deep_view(), name) is Some,
        forall|name: Text| #[trigger]
            index.entries().contains_key(name) ==> index.entries()[name] == model::class_slot(
                classes.deep_view(),
                name,
            )->0,
{
    let ghost all = classes.deep_view();
    let mut index: NameMap<usize> = NameMap::new();
    let mut i: usize = 0;
    while i < classes.len()
        invariant
            i <= classes@.len(),
            all == classes.deep_view(),
            index.wf(),
            forall|name: Text| #[trigger]
                index.entries().contains_key(name) <==> model::class_slot(all.take(i as int), name) is Some,
            forall|name: Text| #[trigger]
                index.entries().contains_key(name) ==> index.entries()[name] == model::class_slot(
                    all.take(i as int),
                    name,
                )->0,
        decreases classes@.len() - i,
    {
        assert(all.take(i as int + 1).drop_last() =~= all.take(i as int));
        assert(all.take(i as int + 1).last() == classes@[i as int].deep_view());
        index.insert(classes[i].name.clone(), i);
        i = i + 1;
    }
    assert(all.take(i as int) =~= all);
    index
}

/// The module that tokens of a source make.
pub fn parse_tokens(path: String, module_name: String, package_name: String, bytes: &[u8], source_tokens: Vec<TokenSpan>) -> (module: ModuleInfo)
    requires
        source_tokens@.len() < usize::MAX,
        tokens::countable(source_tokens.deep_view()),
    ensures
        module.wf(),
        module.deep_view() == grammar::module_of(
            path@,
            (Context { bytes: bytes@, module_name: module_name@, package_name: package_name@ }),
            source_tokens.deep_view(),
        ),
{
    let mut parser = ModuleParser::new(path, module_name, package_name, bytes);
    parser.parse(source_tokens);
    parser.finish()
}

/// The module that a source makes, once its bytes have been decoded.
pub open spec fn module_from_text(path: Text, module_name: Text, source: Text) -> ModuleView {
    grammar::module_of(
        path,
        Context {
            bytes: vstd::utf8::encode_utf8(source),
            module_name,
            package_name: paths::package_of(path, module_name),
        },
        tokens::tokens_of(source),
    )
}

/// The module of a name that a source makes.
pub fn parse_module_text(path: &str, module_name: &str, source: &str) -> (module: Option<ModuleInfo>)
    ensures
        module is Some <==> vstd::utf8::encode_utf8(source@).len() < u32::MAX,
        module is Some ==> module->0.wf() && module->0.deep_view() == module_from_text(
            path@,
            module_name@,
            source@,
        ),
{
    let bytes = source.as_bytes();
    if bytes.len() as u64 >= u32::MAX as u64 {
        return None;
    }
    let package_name = package_name_for_module(path, module_name);
    let source_tokens = tokenize(source);
    Some(
        parse_tokens(
            path.to_owned(),
            module_name.to_owned(),
            package_name,
            bytes,
            source_tokens,
        ),
    )
}

/// Scopes still belong to what has been read when more has.
pub proof fn lemma_owners_stay(before: StateView, after: StateView)
    requires
        owners_read(before),
        after.pending == before.pending,
        after.scopes == before.scopes,
        after.classes.len() >= before.classes.len(),
        after.functions.len() >= before.functions.len(),
    ensures
        owners_read(after),
{
    assert forall|i: int| 0 <= i < after.scopes.len() implies owner_read(
        #[trigger] after.scopes[i],
        after.classes.len() as int,
        after.functions.len() as int,
    ) by {
        assert(owner_read(
            before.scopes[i],
            before.classes.len() as int,
            before.functions.len() as int,
        ));
    }
}

/// Why a file could not be read as a module.
#[derive(Debug)]
pub enum ModuleError {
    Path(PathError),
    TooLarge,
}

/// The module of a name that the bytes of a source make. Bytes that are no UTF-8 are replaced. A
/// source of 4 GiB or more is refused: positions in it could not be counted.
pub fn parse_module_with_name(path: &str, module_name: &str, bytes: &[u8]) -> (module: Result<ModuleInfo, ModuleError>)
    ensures
        match module {
            Ok(module) => vstd::utf8::encode_utf8(grammar::lossy(bytes@)).len() < u32::MAX
                && module.wf() && module.deep_view() == module_from_text(
                path@,
                module_name@,
                grammar::lossy(bytes@),
            ),
            Err(error) => vstd::utf8::encode_utf8(grammar::lossy(bytes@)).len() >= u32::MAX
                && error is TooLarge,
        },
{
    let source = decode(bytes);
    match parse_module_text(path, module_name, source.as_str()) {
        Some(module) => Ok(module),
        None => Err(ModuleError::TooLarge),
    }
}

/// The module in the file at `path` of a workspace.
pub fn parse_module(root: &str, path: &str, bytes: &[u8]) -> (module: Result<ModuleInfo, ModuleError>)
    ensures
        match module {
            Ok(module) => module.wf() && match paths::module_name_at(root@, path@) {
                Ok(name) => vstd::utf8::encode_utf8(grammar::lossy(bytes@)).len() < u32::MAX
                    && module.deep_view() == module_from_text(path@, name, grammar::lossy(bytes@)),
                Err(_) => false,
            },
            Err(ModuleError::Path(error)) => match paths::module_name_at(root@, path@) {
                Ok(_) => false,
                Err(expected) => error.deep_view() == expected,
            },
            Err(ModuleError::TooLarge) => paths::module_name_at(root@, path@) is Ok
                && vstd::utf8::encode_utf8(grammar::lossy(bytes@)).len() >= u32::MAX,
        },
{
    match module_name_from_path(root, path) {
        Ok(name) => parse_module_with_name(path, name.as_str(), bytes),
        Err(error) => Err(ModuleError::Path(error)),
    }
}

/// The member `parts` of a module.
fn member_of(module: &str, parts: Vec<String>) -> (binding: ImportBinding)
    requires
        parts@.len() > 0,
    ensures
        binding.deep_view() == grammar::member_of(module@, parts.deep_view()),
{
    let ghost all = parts.deep_view();
    let mut parts = parts;
    let last = parts.pop().unwrap();
    assert(last@ == all.last());
    assert(parts.deep_view() =~= all.drop_last());
    if parts.len() == 0 {
        ImportBinding::ImportedName { module: module.to_owned(), name: last }
    } else {
        let inner = join_text(&parts, ".");
        ImportBinding::ImportedName { module: cat3(module, ".", inner.as_str()), name: last }
    }
}

} // verus!
