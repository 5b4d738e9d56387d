//! What is known of a Python module, and what queries give back.
use vstd::prelude::*;

use crate::names::NameMap;
use crate::numbers;
use crate::numbers::decimal_of;
use crate::text;
use crate::text::cat3;
use crate::text::Text;

verus! {

/// A position in a source: line and column, both from 1.
#[derive(Debug, Clone, Copy, PartialEq, Eq, Structural)]
pub struct RangePoint {
    pub line: usize,
    pub col: usize,
}

impl DeepView for RangePoint {
    type V = RangePoint;

    open spec fn deep_view(&self) -> RangePoint {
        *self
    }
}

/// A stretch of a source, from its first position to its last.
#[derive(Debug, Clone, Copy, PartialEq, Eq, Structural)]
pub struct SourceRange {
    pub start: RangePoint,
    pub end: RangePoint,
}

impl DeepView for SourceRange {
    type V = SourceRange;

    open spec fn deep_view(&self) -> SourceRange {
        *self
    }
}

/// A method of a class.
#[derive(Debug)]
pub struct MethodInfo {
    pub name: String,
    pub line: usize,
    pub col: usize,
}

/// What a method is.
#[verifier::ext_equal]
pub struct MethodView {
    pub name: Text,
    pub line: usize,
    pub col: usize,
}

impl DeepView for MethodInfo {
    type V = MethodView;

    open spec fn deep_view(&self) -> MethodView {
        MethodView {
            name: self.name@,
            line: self.line,
            col: self.col,
        }
    }
}

impl Clone for MethodInfo {
    fn clone(&self) -> (r: Self)
        ensures
            r.deep_view() == self.deep_view(),
    {
        let r = MethodInfo {
            name: self.name.clone(),
            line: self.line,
            col: self.col,
        };
        r
    }
}

/// A field of a class.
#[derive(Debug)]
pub struct FieldInfo {
    pub name: String,
    pub annotation: String,
    pub required: bool,
    pub line: usize,
    pub col: usize,
    pub type_ref: Option<String>,
    pub type_line: Option<usize>,
    pub type_col: Option<usize>,
}

/// What a field is.
#[verifier::ext_equal]
pub struct FieldView {
    pub name: Text,
    pub annotation: Text,
    pub required: bool,
    pub line: usize,
    pub col: usize,
    pub type_ref: Option<Text>,
    pub type_line: Option<usize>,
    pub type_col: Option<usize>,
}

impl DeepView for FieldInfo {
    type V = FieldView;

    open spec fn deep_view(&self) -> FieldView {
        FieldView {
            name: self.name@,
            annotation: self.annotation@,
            required: self.required,
            line: self.line,
            col: self.col,
            type_ref: self.type_ref.deep_view(),
            type_line: self.type_line,
            type_col: self.type_col,
        }
    }
}

impl Clone for FieldInfo {
    fn clone(&self) -> (r: Self)
        ensures
            r.deep_view() == self.deep_view(),
    {
        let r = FieldInfo {
            name: self.name.clone(),
            annotation: self.annotation.clone(),
            required: self.required,
            line: self.line,
            col: self.col,
            type_ref: self.type_ref.clone(),
            type_line: self.type_line,
            type_col: self.type_col,
        };
        r
    }
}

/// A class of a module.
#[derive(Debug)]
pub struct ClassInfo {
    pub name: String,
    pub line: usize,
    pub col: usize,
    pub bases: Vec<String>,
    pub methods: Vec<MethodInfo>,
    pub fields: Vec<FieldInfo>,
}

/// What a class is.
#[verifier::ext_equal]
pub struct ClassView {
    pub name: Text,
    pub line: usize,
    pub col: usize,
    pub bases: Seq<Text>,
    pub methods: Seq<MethodView>,
    pub fields: Seq<FieldView>,
}

impl DeepView for ClassInfo {
    type V = ClassView;

    open spec fn deep_view(&self) -> ClassView {
        ClassView {
            name: self.name@,
            line: self.line,
            col: self.col,
            bases: self.bases.deep_view(),
            methods: self.methods.deep_view(),
            fields: self.fields.deep_view(),
        }
    }
}

/// A place at which something is called or referred to.
#[derive(Debug)]
pub struct CallSite {
    pub raw_target: String,
    pub range: SourceRange,
}

/// What a call site is.
#[verifier::ext_equal]
pub struct CallView {
    pub raw_target: Text,
    pub range: SourceRange,
}

impl DeepView for CallSite {
    type V = CallView;

    open spec fn deep_view(&self) -> CallView {
        CallView {
            raw_target: self.raw_target@,
            range: self.range,
        }
    }
}

/// A function, a method, or a name whose definition refers to others.
#[derive(Debug)]
pub struct FunctionInfo {
    pub name: String,
    pub line: usize,
    pub col: usize,
    pub kind: u32,
    pub class_name: Option<String>,
    pub calls: Vec<CallSite>,
}

/// What a function is.
#[verifier::ext_equal]
pub struct FunctionView {
    pub name: Text,
    pub line: usize,
    pub col: usize,
    pub kind: u32,
    pub class_name: Option<Text>,
    pub calls: Seq<CallView>,
}

impl DeepView for FunctionInfo {
    type V = FunctionView;

    open spec fn deep_view(&self) -> FunctionView {
        FunctionView {
            name: self.name@,
            line: self.line,
            col: self.col,
            kind: self.kind,
            class_name: self.class_name.deep_view(),
            calls: self.calls.deep_view(),
        }
    }
}

/// A class, as a list of subtypes shows it.
#[derive(Debug)]
pub struct HierarchyItem {
    pub name: String,
    pub path: String,
    pub line: usize,
    pub col: usize,
    pub kind: u32,
    pub detail: String,
    pub external: bool,
}

/// What an item of a list of subtypes is.
#[verifier::ext_equal]
pub struct HierarchyItemView {
    pub name: Text,
    pub path: Text,
    pub line: usize,
    pub col: usize,
    pub kind: u32,
    pub detail: Text,
    pub external: bool,
}

impl DeepView for HierarchyItem {
    type V = HierarchyItemView;

    open spec fn deep_view(&self) -> HierarchyItemView {
        HierarchyItemView {
            name: self.name@,
            path: self.path@,
            line: self.line,
            col: self.col,
            kind: self.kind,
            detail: self.detail@,
            external: self.external,
        }
    }
}

/// A function, as a list of calls shows it.
#[derive(Debug)]
pub struct CallHierarchyItem {
    pub name: String,
    pub kind: u32,
    pub path: String,
    pub line: usize,
    pub col: usize,
    pub external: bool,
}

/// What an item of a list of calls is.
#[verifier::ext_equal]
pub struct CallItemView {
    pub name: Text,
    pub kind: u32,
    pub path: Text,
    pub line: usize,
    pub col: usize,
    pub external: bool,
}

impl DeepView for CallHierarchyItem {
    type V = CallItemView;

    open spec fn deep_view(&self) -> CallItemView {
        CallItemView {
            name: self.name@,
            kind: self.kind,
            path: self.path@,
            line: self.line,
            col: self.col,
            external: self.external,
        }
    }
}

impl Clone for CallHierarchyItem {
    fn clone(&self) -> (r: Self)
        ensures
            r.deep_view() == self.deep_view(),
    {
        let r = CallHierarchyItem {
            name: self.name.clone(),
            kind: self.kind,
            path: self.path.clone(),
            line: self.line,
            col: self.col,
            external: self.external,
        };
        r
    }
}

/// The function that a reference stands for.
#[derive(Debug)]
pub struct ResolvedCallableReference {
    pub name: String,
    pub path: String,
    pub line: usize,
    pub col: usize,
    pub kind: u32,
    pub external: bool,
}

/// What a reference stands for.
#[verifier::ext_equal]
pub struct ReferenceView {
    pub name: Text,
    pub path: Text,
    pub line: usize,
    pub col: usize,
    pub kind: u32,
    pub external: bool,
}

impl DeepView for ResolvedCallableReference {
    type V = ReferenceView;

    open spec fn deep_view(&self) -> ReferenceView {
        ReferenceView {
            name: self.name@,
            path: self.path@,
            line: self.line,
            col: self.col,
            kind: self.kind,
            external: self.external,
        }
    }
}

/// A caller or callee, with the places of the calls.
#[derive(Debug)]
pub struct CallHierarchyEdge {
    pub item: CallHierarchyItem,
    pub from_ranges: Vec<SourceRange>,
}

/// What an edge of the call graph is.
#[verifier::ext_equal]
pub struct EdgeView {
    pub item: CallItemView,
    pub from_ranges: Seq<SourceRange>,
}

impl DeepView for CallHierarchyEdge {
    type V = EdgeView;

    open spec fn deep_view(&self) -> EdgeView {
        EdgeView {
            item: self.item.deep_view(),
            from_ranges: self.from_ranges.deep_view(),
        }
    }
}

impl Clone for CallHierarchyEdge {
    fn clone(&self) -> (r: Self)
        ensures
            r.deep_view() == self.deep_view(),
    {
        let r = CallHierarchyEdge {
            item: self.item.clone(),
            from_ranges: self.from_ranges.clone(),
        };
        assert(r.from_ranges.deep_view() =~= self.from_ranges.deep_view());
        r
    }
}

/// The members of one class.
#[derive(Debug)]
pub struct ClassMembersResult {
    pub file: String,
    pub class_name: String,
    pub methods: Vec<MethodInfo>,
    pub fields: Vec<FieldInfo>,
}

/// What the members of a class are.
#[verifier::ext_equal]
pub struct MembersView {
    pub file: Text,
    pub class_name: Text,
    pub methods: Seq<MethodView>,
    pub fields: Seq<FieldView>,
}

impl DeepView for ClassMembersResult {
    type V = MembersView;

    open spec fn deep_view(&self) -> MembersView {
        MembersView {
            file: self.file@,
            class_name: self.class_name@,
            methods: self.methods.deep_view(),
            fields: self.fields.deep_view(),
        }
    }
}

/// What a name of a module is bound to.
#[derive(Debug)]
pub enum ImportBinding {
    Module { module: String },
    ImportedName { module: String, name: String },
}

/// What a binding stands for.
pub enum BindingView {
    Module { module: Text },
    ImportedName { module: Text, name: Text },
}

impl DeepView for ImportBinding {
    type V = BindingView;

    open spec fn deep_view(&self) -> BindingView {
        match self {
            ImportBinding::Module { module } => BindingView::Module { module: module@ },
            ImportBinding::ImportedName { module, name } => BindingView::ImportedName {
                module: module@,
                name: name@,
            },
        }
    }
}

impl Clone for ImportBinding {
    fn clone(&self) -> (r: Self)
        ensures
            r.deep_view() == self.deep_view(),
    {
        match self {
            ImportBinding::Module { module } => ImportBinding::Module { module: module.clone() },
            ImportBinding::ImportedName { module, name } => ImportBinding::ImportedName {
                module: module.clone(),
                name: name.clone(),
            },
        }
    }
}

/// The class that a base or a type stands for.
#[derive(Debug)]
pub enum ResolvedBase {
    Workspace { module: String, class_name: String, display: String },
    External { module: String, class_name: String, display: String },
    Unresolved { display: String },
}

/// What a resolved base stands for.
pub enum BaseView {
    Workspace { module: Text, class_name: Text, display: Text },
    External { module: Text, class_name: Text, display: Text },
    Unresolved { display: Text },
}

impl DeepView for ResolvedBase {
    type V = BaseView;

    open spec fn deep_view(&self) -> BaseView {
        match self {
            ResolvedBase::Workspace { module, class_name, display } => BaseView::Workspace {
                module: module@,
                class_name: class_name@,
                display: display@,
            },
            ResolvedBase::External { module, class_name, display } => BaseView::External {
                module: module@,
                class_name: class_name@,
                display: display@,
            },
            ResolvedBase::Unresolved { display } => BaseView::Unresolved { display: display@ },
        }
    }
}

/// What is known of a module. The class index leads from a name to the last class of that name.
pub struct ModuleInfo {
    pub path: String,
    pub module_name: String,
    pub imports: NameMap<ImportBinding>,
    pub star_imports: Vec<String>,
    pub classes: Vec<ClassInfo>,
    pub class_index: NameMap<usize>,
    pub functions: Vec<FunctionInfo>,
}

/// What a module is.
#[verifier::ext_equal]
pub struct ModuleView {
    pub path: Text,
    pub module_name: Text,
    pub imports: Map<Text, BindingView>,
    pub star_imports: Seq<Text>,
    pub classes: Seq<ClassView>,
    pub functions: Seq<FunctionView>,
}

impl DeepView for ModuleInfo {
    type V = ModuleView;

    open spec fn deep_view(&self) -> ModuleView {
        ModuleView {
            path: self.path@,
            module_name: self.module_name@,
            imports: self.imports.deep_entries(),
            star_imports: self.star_imports.deep_view(),
            classes: self.classes.deep_view(),
            functions: self.functions.deep_view(),
        }
    }
}

/// The place of the last class of a name.
pub open spec fn class_slot(classes: Seq<ClassView>, name: Text) -> Option<int>
    decreases classes.len(),
{
    if classes.len() == 0 {
        None
    } else if classes.last().name == name {
        Some(classes.len() - 1)
    } else {
        class_slot(classes.drop_last(), name)
    }
}

impl ModuleView {
    /// Whether the module defines a class of this name.
    pub open spec fn has_class(&self, name: Text) -> bool {
        class_slot(self.classes, name) is Some
    }

    /// The last class of a name.
    pub open spec fn class_named(&self, name: Text) -> Option<ClassView> {
        match class_slot(self.classes, name) {
            Some(slot) => Some(self.classes[slot]),
            None => None,
        }
    }
}

/// The place of the last class of a name is one, and holds a class of that name.
pub proof fn lemma_class_slot(classes: Seq<ClassView>, name: Text)
    ensures
        class_slot(classes, name) matches Some(slot) ==> 0 <= slot < classes.len()
            && classes[slot].name == name,
        forall|i: int|
            0 <= i < classes.len() && (#[trigger] classes[i]).name == name ==> class_slot(
                classes,
                name,
            ) is Some && i <= class_slot(classes, name)->0,
    decreases classes.len(),
{
    if classes.len() > 0 && classes.last().name != name {
        lemma_class_slot(classes.drop_last(), name);
        assert forall|i: int|
            0 <= i < classes.len() && (#[trigger] classes[i]).name == name implies class_slot(
            classes,
            name,
        ) is Some && i <= class_slot(classes, name)->0 by {
            assert(classes.drop_last()[i] == classes[i]);
        }
    }
}

impl ModuleInfo {
    /// The tables hold together, and the class index leads to the last class of each name.
    pub open spec fn wf(&self) -> bool {
        &&& self.imports.wf()
        &&& self.class_index.wf()
        &&& forall|name: Text| #[trigger]
            self.class_index.entries().contains_key(name) <==> class_slot(
                self.classes.deep_view(),
                name,
            ) is Some
        &&& forall|name: Text| #[trigger]
            self.class_index.entries().contains_key(name) ==> self.class_index.entries()[name]
                == class_slot(self.classes.deep_view(), name)->0
    }

    /// Whether the module defines a class of this name.
    pub fn has_class(&self, name: &str) -> (held: bool)
        requires
            self.wf(),
        ensures
            held == self.deep_view().has_class(name@),
    {
        self.class_index.contains(name)
    }

    /// The last class of a name.
    pub fn class_named(&self, name: &str) -> (class: Option<&ClassInfo>)
        requires
            self.wf(),
        ensures
            class is Some == self.deep_view().class_named(name@) is Some,
            class is Some ==> class->0.deep_view() == self.deep_view().class_named(name@)->0,
            class is Some ==> class->0.name@ == name@,
    {
        proof {
            lemma_class_slot(self.classes.deep_view(), name@);
        }
        match self.class_index.get(name) {
            Some(slot) => Some(&self.classes[*slot]),
            None => None,
        }
    }

    /// What a name is bound to.
    pub fn binding(&self, name: &str) -> (binding: Option<&ImportBinding>)
        requires
            self.wf(),
        ensures
            binding is Some == self.deep_view().imports.contains_key(name@),
            binding is Some ==> binding->0.deep_view() == self.deep_view().imports[name@],
    {
        self.imports.get(name)
    }
}

/// The key of a class: module and class, apart by two colons.
pub open spec fn class_key_of(module: Text, class: Text) -> Text {
    module + "::"@ + class
}

/// What a key holds before its positions: module, class and name.
pub open spec fn callable_name(module: Text, owner: Text, name: Text) -> Text {
    module + "::"@ + owner + "::"@ + name
}

/// The class that a function belongs to, as its key names it.
pub open spec fn owner_of(function: FunctionView) -> Text {
    match function.class_name {
        Some(owner) => owner,
        None => Seq::empty(),
    }
}

/// The key of a function: module, class and name, and where it stands.
pub open spec fn callable_key_of(module: Text, function: FunctionView) -> Text {
    callable_name(module, owner_of(function), function.name) + "@"@ + numbers::decimal(
        function.line as nat,
    ) + ":"@ + numbers::decimal(function.col as nat)
}

proof fn lemma_colons(a: Text, x: Text, b: Text, y: Text)
    requires
        !x.contains(':'),
        !y.contains(':'),
        a + "::"@ + x == b + "::"@ + y,
    ensures
        a == b,
        x == y,
{
    reveal_strlit("::");
    assert(a + "::"@ + x =~= a.push(':').push(':') + x);
    assert(b + "::"@ + y =~= b.push(':').push(':') + y);
    text::lemma_same_last(a.push(':'), x, b.push(':'), y, ':');
    assert(a =~= a.push(':').drop_last());
    assert(b =~= b.push(':').drop_last());
}

/// Different classes have different keys, wherever the names of classes hold no colons.
pub proof fn law_class_keys_tell_classes_apart(module: Text, class: Text, other_module: Text, other: Text)
    requires
        !class.contains(':'),
        !other.contains(':'),
        class_key_of(module, class) == class_key_of(other_module, other),
    ensures
        module == other_module,
        class == other,
{
    lemma_colons(module, class, other_module, other);
}

/// Two functions with the same key stand at the same position; and where names hold no colons, they
/// belong to the same module and class and have the same name.
pub proof fn law_callable_keys_tell_functions_apart(module: Text, function: FunctionView, other_module: Text, other: FunctionView)
    requires
        callable_key_of(module, function) == callable_key_of(other_module, other),
    ensures
        function.line == other.line,
        function.col == other.col,
        !owner_of(function).contains(':') && !function.name.contains(':') && !owner_of(other).contains(':')
            && !other.name.contains(':') ==> module == other_module && owner_of(function) == owner_of(other)
            && function.name == other.name,
{
    reveal_strlit("@");
    reveal_strlit(":");
    let start = callable_name(module, owner_of(function), function.name);
    let other_start = callable_name(other_module, owner_of(other), other.name);
    let line = numbers::decimal(function.line as nat);
    let col = numbers::decimal(function.col as nat);
    let other_line = numbers::decimal(other.line as nat);
    let other_col = numbers::decimal(other.col as nat);
    numbers::lemma_decimal_holds_digits(function.line as nat, '@');
    numbers::lemma_decimal_holds_digits(other.line as nat, '@');
    numbers::lemma_decimal_holds_digits(function.col as nat, ':');
    numbers::lemma_decimal_holds_digits(other.col as nat, ':');
    assert(callable_key_of(module, function) =~= (start.push('@') + line).push(':') + col);
    assert(callable_key_of(other_module, other) =~= (other_start.push('@') + other_line).push(':')
        + other_col);
    text::lemma_same_last(
        start.push('@') + line,
        col,
        other_start.push('@') + other_line,
        other_col,
        ':',
    );
    text::lemma_same_last(start, line, other_start, other_line, '@');
    numbers::law_decimal_tells_numbers_apart(function.line as nat, other.line as nat);
    numbers::law_decimal_tells_numbers_apart(function.col as nat, other.col as nat);
    if !owner_of(function).contains(':') && !function.name.contains(':') && !owner_of(other).contains(':')
        && !other.name.contains(':') {
        lemma_colons(
            module + "::"@ + owner_of(function),
            function.name,
            other_module + "::"@ + owner_of(other),
            other.name,
        );
        lemma_colons(module, owner_of(function), other_module, owner_of(other));
    }
}

/// The key of a class.
pub fn class_key(module_name: &str, class_name: &str) -> (key: String)
    ensures
        key@ == class_key_of(module_name@, class_name@),
{
    cat3(module_name, "::", class_name)
}

/// The key of a function.
pub fn callable_key(module_name: &str, function: &FunctionInfo) -> (key: String)
    ensures
        key@ == callable_key_of(module_name@, function.deep_view()),
{
    let mut key = module_name.to_owned();
    key.append("::");
    if let Some(owner) = &function.class_name {
        key.append(owner.as_str());
    } else {
        assert(key@ + Seq::<char>::empty() =~= key@);
    }
    key.append("::");
    key.append(function.name.as_str());
    key.append("@");
    key.append(decimal_of(function.line as u128).as_str());
    key.append(":");
    key.append(decimal_of(function.col as u128).as_str());
    key
}

/// The item that stands for a class.
pub open spec fn item_of_class(module: ModuleView, class: ClassView, external: bool, detail: Text) -> HierarchyItemView {
    HierarchyItemView {
        name: class.name,
        path: module.path,
        line: class.line,
        col: class.col,
        kind: 5,
        detail,
        external,
    }
}

/// The item that stands for a class.
pub fn hierarchy_item_from_class(module: &ModuleInfo, class: &ClassInfo, external: bool, detail: String) -> (item: HierarchyItem)
    ensures
        item.deep_view() == item_of_class(module.deep_view(), class.deep_view(), external, detail@),
{
    HierarchyItem {
        name: class.name.clone(),
        path: module.path.clone(),
        line: class.line,
        col: class.col,
        kind: 5,
        detail,
        external,
    }
}

/// The item that stands for a function.
pub open spec fn item_of_function(module: ModuleView, function: FunctionView, external: bool) -> CallItemView {
    CallItemView {
        name: function.name,
        kind: function.kind,
        path: module.path,
        line: function.line,
        col: function.col,
        external,
    }
}

/// The item that stands for a function.
pub fn call_item_from_function(module: &ModuleInfo, function: &FunctionInfo, external: bool) -> (item: CallHierarchyItem)
    ensures
        item.deep_view() == item_of_function(module.deep_view(), function.deep_view(), external),
{
    CallHierarchyItem {
        name: function.name.clone(),
        kind: function.kind,
        path: module.path.clone(),
        line: function.line,
        col: function.col,
        external,
    }
}

} // verus!
