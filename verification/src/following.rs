//! What names stand for: where a class or a function that is written in a module is found.
use vstd::prelude::*;

use crate::annotations;
use crate::errors::FaultView;
use crate::index;
use crate::index::IndexView;
use crate::index::Lookup;
use crate::model::BaseView;
use crate::model::BindingView;
use crate::model::ModuleView;
use crate::resolve;
use crate::showing;
use crate::text;
use crate::text::Text;

verus! {

/// Whether a text is one name: not empty, and made of characters that neither end a name nor separate
/// it from another.
pub open spec fn is_name(s: Text) -> bool {
    s.len() > 0 && forall|i: int| 0 <= i < s.len() ==> #[trigger] s[i] != '.' && is_name_char(s[i])
}

/// Whether a character can stand in a name or in a dotted name.
pub open spec fn is_name_char(c: char) -> bool {
    !text::is_white(c) && c != '[' && c != '(' && c != '|' && c != ',' && c != '<' && c != '>' && c != '='
}

/// Whether texts are names.
pub open spec fn are_names(parts: Seq<Text>) -> bool {
    forall|i: int| 0 <= i < parts.len() ==> is_name(#[trigger] parts[i])
}

/// A dotted name.
pub open spec fn dotted(parts: Seq<Text>) -> Text {
    text::joined(parts, seq!['.'])
}

/// A class at hand as a base, shown as it was written.
pub open spec fn as_base(idx: IndexView, module: Text, class_name: Text, display: Text) -> BaseView {
    if showing::is_outside(idx, module) {
        BaseView::External { module, class_name, display }
    } else {
        BaseView::Workspace { module, class_name, display }
    }
}

proof fn lemma_head(s: Text)
    requires
        forall|i: int| 0 <= i < s.len() ==> is_name_char(#[trigger] s[i]),
    ensures
        annotations::head_from(s, 0) == s,
    decreases s.len(),
{
    if s.len() > 0 {
        let rest = s.drop_first();
        assert forall|i: int| 0 <= i < rest.len() implies is_name_char(#[trigger] rest[i]) by {
            assert(rest[i] == s[i + 1]);
        }
        lemma_head(rest);
        assert(is_name_char(s[0]));
        assert(seq![s[0]] + rest =~= s);
    }
}

proof fn lemma_dotted_chars(parts: Seq<Text>)
    requires
        are_names(parts),
    ensures
        forall|i: int| 0 <= i < dotted(parts).len() ==> is_name_char(#[trigger] dotted(parts)[i]),
        parts.len() > 0 ==> dotted(parts).len() > 0,
    decreases parts.len(),
{
    let s = dotted(parts);
    if parts.len() == 1 {
        assert(is_name(parts[0]));
    } else if parts.len() > 1 {
        let front = parts.drop_last();
        assert forall|i: int| 0 <= i < front.len() implies is_name(#[trigger] front[i]) by {
            assert(front[i] == parts[i]);
        }
        lemma_dotted_chars(front);
        assert(is_name(parts[parts.len() - 1]));
        let start = dotted(front);
        assert forall|i: int| 0 <= i < s.len() implies is_name_char(#[trigger] s[i]) by {
            if i < start.len() {
                assert(s[i] == start[i]);
            } else if i > start.len() {
                assert(s[i] == parts.last()[i - start.len() - 1]);
            }
        }
    }
}

/// A dotted name is the head of the type that it is, and splits into its names.
pub proof fn lemma_dotted(parts: Seq<Text>)
    requires
        parts.len() > 0,
        are_names(parts),
    ensures
        annotations::type_head(dotted(parts)) == dotted(parts),
        text::split(dotted(parts), Some('.')) == parts,
        !dotted(parts).contains('='),
        dotted(parts).len() > 0,
{
    let s = dotted(parts);
    lemma_dotted_chars(parts);
    lemma_head(s);
    assert(!text::is_white(s.first()) && !text::is_white(s.last())) by {
        assert(is_name_char(s[0]) && is_name_char(s[s.len() - 1]));
    }
    assert(text::trimmed(s) == s);
    if s.contains('=') {
        let i = s.index_of('=');
        assert(is_name_char(s[i]));
    }
    assert forall|i: int, k: int| 0 <= i < parts.len() && 0 <= k < parts[i].len() implies !text::breaks(
        #[trigger] parts[i][k],
        Some('.'),
    ) by {
        assert(is_name(parts[i]));
    }
    text::law_split_undoes_join(parts, '.', Some('.'));
}

/// A dotted name is its first name, a dot and the rest.
pub proof fn lemma_joined_front(first: Text, rest: Seq<Text>)
    requires
        rest.len() > 0,
    ensures
        dotted(seq![first] + rest) == first + seq!['.'] + dotted(rest),
    decreases rest.len(),
{
    reveal_with_fuel(text::joined, 2);
    let all = seq![first] + rest;
    if rest.len() == 1 {
        assert(all.drop_last() =~= seq![first]);
        assert(dotted(all) =~= first + seq!['.'] + rest[0]);
    } else {
        lemma_joined_front(first, rest.drop_last());
        assert(all.drop_last() =~= seq![first] + rest.drop_last());
        assert(dotted(all) =~= first + seq!['.'] + dotted(rest));
    }
}

/// Two names of which the first two are taken together are the same dotted name.
pub proof fn lemma_joined_regrouped(first: Text, second: Text, rest: Seq<Text>)
    ensures
        dotted(seq![dotted(seq![first, second])] + rest) == dotted(seq![first, second] + rest),
{
    let pair = dotted(seq![first, second]);
    reveal_with_fuel(text::joined, 2);
    assert(seq![first] + seq![second] =~= seq![first, second]);
    lemma_joined_front(first, seq![second]);
    if rest.len() == 0 {
        assert(seq![pair] + rest =~= seq![pair]);
        assert(seq![first, second] + rest =~= seq![first, second]);
    } else {
        lemma_joined_front(pair, rest);
        assert(seq![first, second] + rest =~= seq![first] + (seq![second] + rest));
        lemma_joined_front(first, seq![second] + rest);
        lemma_joined_front(second, rest);
        assert(dotted(seq![pair] + rest) =~= dotted(seq![first, second] + rest));
    }
}

/// The module that a binding names: the module itself, or the name that was imported as a module.
pub open spec fn module_bound(binding: BindingView) -> Text {
    match binding {
        BindingView::Module { module } => module,
        BindingView::ImportedName { module, name } => dotted(seq![module, name]),
    }
}

/// The module that a binding names is the one that a path behind it goes on from.
pub proof fn lemma_bound(binding: BindingView)
    ensures
        resolve::bound_module(binding) == module_bound(binding),
{
    reveal_strlit(".");
    reveal_with_fuel(text::joined, 2);
    if let BindingView::ImportedName { module, name } = binding {
        assert(seq![module, name].drop_last() =~= seq![module]);
        assert(dotted(seq![module, name]) =~= module + "."@ + name);
    }
}

/// Where a dotted base whose first name is bound leads: all names behind the first one but the last
/// go to the module, and the last one is looked for there.
proof fn lemma_bound_base(idx: IndexView, info: ModuleView, head: Text, middle: Seq<Text>, class: Text)
    requires
        is_name(head),
        are_names(middle),
        is_name(class),
        info.imports.contains_key(head),
    ensures
        ({
            let raw = dotted(seq![head] + middle + seq![class]);
            let module = dotted(seq![module_bound(info.imports[head])] + middle);
            resolve::base_in(idx, info, raw) == resolve::member(idx, module, class, raw, Set::empty())
        }),
{
    let parts = seq![head] + middle + seq![class];
    let tail = parts.drop_first();
    let bound = module_bound(info.imports[head]);
    assert forall|i: int| 0 <= i < parts.len() implies is_name(#[trigger] parts[i]) by {
        if 0 < i < parts.len() - 1 {
            assert(parts[i] == middle[i - 1]);
        }
    }
    lemma_dotted(parts);
    lemma_bound(info.imports[head]);
    reveal_strlit(".");
    assert("."@ =~= seq!['.']);
    assert(tail.drop_last() =~= middle);
    assert(tail.last() == class);
    if middle.len() > 0 {
        lemma_joined_front(bound, middle);
    } else {
        assert(seq![bound] + middle =~= seq![bound]);
        assert(dotted(seq![bound]) == bound);
    }
}

/// A base `h.p.C`, with any number of names between the first and the last, whose first name is bound
/// to module `m` stands for the class `C` of module `m.p`, where that module is at hand and has it.
pub proof fn law_paths_lead_into_modules(idx: IndexView, info: ModuleView, head: Text, middle: Seq<Text>, class: Text)
    requires
        idx.wf(),
        is_name(head),
        are_names(middle),
        is_name(class),
        info.imports.contains_key(head),
        showing::class_there(
            idx,
            dotted(seq![module_bound(info.imports[head])] + middle),
            class,
        ) is Some,
    ensures
        ({
            let raw = dotted(seq![head] + middle + seq![class]);
            let module = dotted(seq![module_bound(info.imports[head])] + middle);
            resolve::base_in(idx, info, raw) == Ok::<BaseView, FaultView>(as_base(idx, module, class, raw))
        }),
{
    lemma_bound_base(idx, info, head, middle, class);
}

/// The class that a base is, whatever was written for it.
pub open spec fn class_named_by(answer: Result<BaseView, FaultView>) -> Result<Option<(Text, Text, bool)>, FaultView> {
    match answer {
        Err(fault) => Err(fault),
        Ok(BaseView::Workspace { module, class_name, .. }) => Ok(Some((module, class_name, false))),
        Ok(BaseView::External { module, class_name, .. }) => Ok(Some((module, class_name, true))),
        Ok(BaseView::Unresolved { .. }) => Ok(None),
    }
}

proof fn lemma_display(idx: IndexView, binding: BindingView, a: Text, b: Text, followed: Set<(Text, Text)>)
    requires
        idx.wf(),
    ensures
        class_named_by(resolve::follow(idx, binding, a, followed)) == class_named_by(
            resolve::follow(idx, binding, b, followed),
        ),
    decreases resolve::unfollowed(idx, followed), 1nat,
{
    match binding {
        BindingView::Module { module } => {
            if let Some((package, name)) = text::split_at_last(module, '.') {
                lemma_member_display(idx, package, name, a, b, followed);
            }
        },
        BindingView::ImportedName { module, name } => {
            resolve::lemma_found_site(idx, module, name, Set::empty());
            match resolve::find_name(idx, module, name, Set::empty()) {
                Ok(Some(resolve::Found::Bound { module: at, binding: next })) => {
                    if !followed.contains((at, name)) {
                        resolve::lemma_unfollowed(idx, followed, (at, name));
                        lemma_display(idx, next, a, b, followed.insert((at, name)));
                    }
                },
                Ok(None) => {
                    if let Some((package, last)) = text::split_at_last(module + "."@ + name, '.') {
                        lemma_member_display(idx, package, last, a, b, followed);
                    }
                },
                _ => {},
            }
        },
    }
}

proof fn lemma_member_display(idx: IndexView, module: Text, name: Text, a: Text, b: Text, followed: Set<(Text, Text)>)
    requires
        idx.wf(),
    ensures
        class_named_by(resolve::member(idx, module, name, a, followed)) == class_named_by(
            resolve::member(idx, module, name, b, followed),
        ),
    decreases resolve::unfollowed(idx, followed), 0nat,
{
    resolve::lemma_found_site(idx, module, name, Set::empty());
    if let Ok(Some(resolve::Found::Bound { module: at, binding })) = resolve::find_name(
        idx,
        module,
        name,
        Set::empty(),
    ) {
        if !followed.contains((at, name)) {
            resolve::lemma_unfollowed(idx, followed, (at, name));
            lemma_display(idx, binding, a, b, followed.insert((at, name)));
        }
    }
}

/// A dotted name is cut before its last name.
pub proof fn lemma_split_behind(start: Text, name: Text)
    requires
        is_name(name),
    ensures
        text::split_at_last(start + seq!['.'] + name, '.') == Some((start, name)),
{
    let s = start + seq!['.'] + name;
    text::lemma_last_position(s, '.');
    assert(s[start.len() as int] == '.');
    assert forall|i: int| start.len() < i < s.len() implies s[i] != '.' by {
        assert(s[i] == name[i - start.len() - 1]);
    }
    assert(text::last_position(s, '.') == start.len());
    assert(s.subrange(0, start.len() as int) =~= start);
    assert(s.subrange(start.len() as int + 1, s.len() as int) =~= name);
}

/// A base `h.p.C` stands for what the name `C` would stand for were it imported from the module that
/// `h.p` leads to: the same class, or the same fault.
pub proof fn law_paths_are_like_imports(idx: IndexView, info: ModuleView, head: Text, middle: Seq<Text>, class: Text, other: ModuleView, alias: Text)
    requires
        idx.wf(),
        is_name(head),
        are_names(middle),
        is_name(class),
        is_name(alias),
        info.imports.contains_key(head),
        !other.has_class(alias),
        other.imports.contains_key(alias),
        other.imports[alias] == (BindingView::ImportedName {
            module: dotted(seq![module_bound(info.imports[head])] + middle),
            name: class,
        }),
    ensures
        class_named_by(resolve::base_in(idx, info, dotted(seq![head] + middle + seq![class])))
            == class_named_by(resolve::base_in(idx, other, alias)),
{
    let raw = dotted(seq![head] + middle + seq![class]);
    let module = dotted(seq![module_bound(info.imports[head])] + middle);
    lemma_bound_base(idx, info, head, middle, class);
    lemma_simple(alias);
    reveal_strlit(".");
    assert("."@ =~= seq!['.']);
    lemma_split_behind(module, class);
    lemma_member_display(idx, module, class, raw, alias, Set::empty());
}

/// A name is the head of the type that it is, and has one part.
proof fn lemma_simple(name: Text)
    requires
        is_name(name),
    ensures
        annotations::type_head(name) == name,
        text::split(name, Some('.')) == seq![name],
        !name.contains('='),
{
    let parts = seq![name];
    assert(are_names(parts));
    assert(dotted(parts) == name);
    lemma_dotted(parts);
}

/// A name stands for the class of that name that the module defines, whatever it imports.
pub proof fn law_own_classes_come_first(idx: IndexView, info: ModuleView, name: Text)
    requires
        is_name(name),
        info.has_class(name),
    ensures
        resolve::base_in(idx, info, name) == Ok::<BaseView, FaultView>(
            BaseView::Workspace { module: info.module_name, class_name: name, display: name },
        ),
{
    lemma_simple(name);
}

/// Whether places lead on from one to the next: each is a name that a module imports from the next
/// place and for which it has no class itself; the last one is a class at hand. No place comes twice.
pub open spec fn is_trail(idx: IndexView, places: Seq<(Text, Text)>) -> bool {
    &&& places.len() > 0
    &&& places.no_duplicates()
    &&& showing::class_there(idx, places.last().0, places.last().1) is Some
    &&& forall|k: int|
        0 <= k < places.len() - 1 ==> (idx.lookup((#[trigger] places[k]).0) matches Lookup::Known { module: info, .. }
            && !info.has_class(places[k].1) && info.imports.contains_key(places[k].1)
            && info.imports[places[k].1] == (BindingView::ImportedName {
            module: places[k + 1].0,
            name: places[k + 1].1,
        }))
}

proof fn lemma_trail(idx: IndexView, places: Seq<(Text, Text)>, display: Text, followed: Set<(Text, Text)>)
    requires
        idx.wf(),
        is_trail(idx, places),
        forall|k: int| 0 <= k < places.len() ==> !followed.contains(#[trigger] places[k]),
    ensures
        resolve::follow(
            idx,
            BindingView::ImportedName { module: places[0].0, name: places[0].1 },
            display,
            followed,
        ) == Ok::<BaseView, FaultView>(as_base(idx, places.last().0, places.last().1, display)),
    decreases places.len(),
{
    let (module, name) = places[0];
    index::lemma_lookup(idx, module);
    if places.len() > 1 {
        let rest = places.drop_first();
        let inner = followed.insert(places[0]);
        resolve::lemma_found_site(idx, module, name, Set::empty());
        resolve::lemma_unfollowed(idx, followed, (module, name));
        assert forall|k: int| 0 <= k < rest.len() - 1 implies (idx.lookup((#[trigger] rest[k]).0) matches Lookup::Known {
            module: info,
            ..
        } && !info.has_class(rest[k].1) && info.imports.contains_key(rest[k].1) && info.imports[rest[k].1] == (
        BindingView::ImportedName { module: rest[k + 1].0, name: rest[k + 1].1 })) by {
            assert(rest[k] == places[k + 1]);
        }
        assert forall|k: int| 0 <= k < rest.len() implies !inner.contains(#[trigger] rest[k]) by {
            assert(rest[k] == places[k + 1]);
        }
        assert(rest.no_duplicates());
        assert(rest.last() == places.last());
        lemma_trail(idx, rest, display, inner);
    }
}

/// An imported name stands for the class that its imports lead to, through any number of modules
/// that pass it on.
pub proof fn law_imports_lead_to_classes(idx: IndexView, info: ModuleView, name: Text, places: Seq<(Text, Text)>)
    requires
        idx.wf(),
        is_name(name),
        !info.has_class(name),
        is_trail(idx, places),
        info.imports.contains_key(name),
        info.imports[name] == (BindingView::ImportedName { module: places[0].0, name: places[0].1 }),
    ensures
        resolve::base_in(idx, info, name) == Ok::<BaseView, FaultView>(
            as_base(idx, places.last().0, places.last().1, name),
        ),
{
    lemma_simple(name);
    lemma_trail(idx, places, name, Set::empty());
}

/// Whether a module is known not to have a name: it is absent, or it neither defines nor imports it,
/// and imports all names of no module.
pub open spec fn lacks(idx: IndexView, module: Text, name: Text) -> bool {
    match idx.lookup(module) {
        Lookup::Known { module: info, .. } => !info.has_class(name) && !info.imports.contains_key(name)
            && info.star_imports.len() == 0,
        Lookup::Absent => true,
        Lookup::Unknown => false,
    }
}

proof fn lemma_stars(idx: IndexView, stars: Seq<Text>, name: Text, seen: Set<Text>, k: int)
    requires
        idx.wf(),
        0 <= k < stars.len(),
        forall|j: int| 0 <= j < k ==> lacks(idx, #[trigger] stars[j], name),
        showing::class_there(idx, stars[k], name) is Some,
        !seen.contains(stars[k]),
    ensures
        resolve::find_in_stars(idx, stars, name, seen) == Ok::<Option<resolve::Found>, FaultView>(
            Some(resolve::Found::Class { module: stars[k], external: showing::is_outside(idx, stars[k]) }),
        ),
    decreases k,
{
    if k > 0 {
        let rest = stars.drop_first();
        lemma_lacking(idx, stars[0], name, seen);
        assert forall|j: int| 0 <= j < k - 1 implies lacks(idx, #[trigger] rest[j], name) by {
            assert(rest[j] == stars[j + 1]);
        }
        lemma_stars(idx, rest, name, seen, k - 1);
        assert(resolve::find_in_stars(idx, stars, name, seen) == resolve::find_in_stars(
            idx,
            rest,
            name,
            seen,
        ));
    } else {
        index::lemma_lookup(idx, stars[0]);
        assert(resolve::find_name(idx, stars[0], name, seen) == Ok::<Option<resolve::Found>, FaultView>(
            Some(resolve::Found::Class { module: stars[0], external: showing::is_outside(idx, stars[0]) }),
        ));
    }
}

proof fn lemma_lacking(idx: IndexView, module: Text, name: Text, seen: Set<Text>)
    requires
        idx.wf(),
        lacks(idx, module, name),
    ensures
        resolve::find_name(idx, module, name, seen) == Ok::<Option<resolve::Found>, FaultView>(None),
{
    index::lemma_lookup(idx, module);
    if !seen.contains(module) {
        if let Lookup::Known { module: info, .. } = idx.lookup(module) {
            resolve::lemma_unseen(idx, seen, module);
            assert(info.star_imports =~= Seq::empty());
        }
    }
}

/// A name that a module neither defines nor imports by name stands for the class of the first module
/// all of whose names it imports that has one.
pub proof fn law_star_imports_bring_classes(idx: IndexView, module: Text, name: Text, k: int)
    requires
        idx.wf(),
        is_name(name),
        idx.lookup(module) is Known,
        !idx.module(module).has_class(name),
        !idx.module(module).imports.contains_key(name),
        0 <= k < idx.module(module).star_imports.len(),
        forall|j: int| 0 <= j < k ==> lacks(idx, #[trigger] idx.module(module).star_imports[j], name),
        showing::class_there(idx, idx.module(module).star_imports[k], name) is Some,
    ensures
        resolve::base_in(idx, idx.module(module), name) == Ok::<BaseView, FaultView>(
            as_base(idx, idx.module(module).star_imports[k], name, name),
        ),
{
    let info = idx.module(module);
    index::lemma_lookup(idx, module);
    lemma_simple(name);
    resolve::lemma_unseen(idx, Set::empty(), module);
    lemma_stars(idx, info.star_imports, name, Set::empty().insert(module), k);
}

/// A name that a module does not have stands for the builtin class of that name.
pub proof fn law_other_names_are_builtin(idx: IndexView, module: Text, name: Text)
    requires
        idx.wf(),
        is_name(name),
        idx.lookup(module) is Known,
        lacks(idx, module, name),
        showing::class_there(idx, "builtins"@, name) is Some,
    ensures
        resolve::base_in(idx, idx.module(module), name) == Ok::<BaseView, FaultView>(
            as_base(idx, "builtins"@, name, name),
        ),
{
    index::lemma_lookup(idx, module);
    lemma_simple(name);
    lemma_lacking(idx, module, name, Set::empty());
}

/// A dotted base whose first name is bound to nothing stands for a class from outside: the last name,
/// of the module that the others name.
pub proof fn law_unbound_paths_lead_outside(idx: IndexView, info: ModuleView, parts: Seq<Text>)
    requires
        parts.len() > 1,
        are_names(parts),
        !info.imports.contains_key(parts[0]),
    ensures
        resolve::base_in(idx, info, dotted(parts)) == Ok::<BaseView, FaultView>(
            BaseView::External {
                module: dotted(parts.drop_last()),
                class_name: parts.last(),
                display: dotted(parts),
            },
        ),
{
    lemma_dotted(parts);
    reveal_strlit(".");
    assert("."@ =~= seq!['.']);
}

/// The arguments of a type and the other types that it admits do not belong to its head.
pub proof fn law_type_heads_end_before_arguments(parts: Seq<Text>, rest: Text)
    requires
        parts.len() > 0,
        are_names(parts),
        rest.len() > 0,
        rest[0] == '[' || rest[0] == '(' || rest[0] == '|' || rest[0] == ',',
        !text::is_white(rest.last()),
    ensures
        annotations::type_head(dotted(parts) + rest) == dotted(parts),
{
    let name = dotted(parts);
    let raw = name + rest;
    lemma_dotted(parts);
    lemma_dotted_chars(parts);
    assert(raw.first() == name[0]);
    assert(is_name_char(name[0]));
    assert(raw.last() == rest.last());
    assert(text::trimmed(raw) == raw);
    lemma_head_stops(name, rest);
}

proof fn lemma_head_stops(name: Text, rest: Text)
    requires
        forall|i: int| 0 <= i < name.len() ==> is_name_char(#[trigger] name[i]),
        rest.len() > 0,
        rest[0] == '[' || rest[0] == '(' || rest[0] == '|' || rest[0] == ',',
    ensures
        annotations::head_from(name + rest, 0) == name,
    decreases name.len(),
{
    let raw = name + rest;
    if name.len() == 0 {
        assert(raw[0] == rest[0]);
        assert(annotations::head_from(raw, 0) =~= name);
    } else {
        let front = name.drop_first();
        assert forall|i: int| 0 <= i < front.len() implies is_name_char(#[trigger] front[i]) by {
            assert(front[i] == name[i + 1]);
        }
        lemma_head_stops(front, rest);
        assert(raw.drop_first() =~= front + rest);
        assert(raw[0] == name[0]);
        assert(is_name_char(name[0]));
        assert(seq![name[0]] + front =~= name);
    }
}

/// An imported module that is named as a base stands for the class that its last name is in the module
/// that its other names are.
pub proof fn law_modules_named_as_bases_are_classes(idx: IndexView, info: ModuleView, name: Text, package: Text, class: Text)
    requires
        idx.wf(),
        is_name(name),
        is_name(class),
        !info.has_class(name),
        info.imports.contains_key(name),
        info.imports[name] == (BindingView::Module { module: package + seq!['.'] + class }),
        showing::class_there(idx, package, class) is Some,
    ensures
        resolve::base_in(idx, info, name) == Ok::<BaseView, FaultView>(as_base(idx, package, class, name)),
{
    lemma_simple(name);
    lemma_split_behind(package, class);
    index::lemma_lookup(idx, package);
    assert(resolve::base_in(idx, info, name) == resolve::follow(idx, info.imports[name], name, Set::empty()));
    assert(resolve::follow(idx, info.imports[name], name, Set::empty()) == resolve::member(
        idx,
        package,
        class,
        name,
        Set::empty(),
    ));
}

/// A name that neither the module nor the builtins have stands for nothing; only `object` is always
/// taken for the builtin class.
pub proof fn law_unknown_names_stand_for_nothing(idx: IndexView, module: Text, name: Text)
    requires
        idx.wf(),
        is_name(name),
        idx.lookup(module) is Known,
        lacks(idx, module, name),
        lacks(idx, "builtins"@, name),
    ensures
        name == "object"@ ==> resolve::base_in(idx, idx.module(module), name) == Ok::<BaseView, FaultView>(
            BaseView::External { module: "builtins"@, class_name: name, display: name },
        ),
        name != "object"@ ==> resolve::base_in(idx, idx.module(module), name) == Ok::<BaseView, FaultView>(
            BaseView::Unresolved { display: name },
        ),
{
    index::lemma_lookup(idx, module);
    lemma_simple(name);
    lemma_lacking(idx, module, name, Set::empty());
    lemma_lacking(idx, "builtins"@, name, Set::empty());
}

/// A keyword argument in the place of a base stands for nothing.
pub proof fn law_keyword_arguments_stand_for_nothing(idx: IndexView, info: ModuleView, raw: Text)
    requires
        raw.contains('='),
    ensures
        resolve::base_in(idx, info, raw) == Ok::<BaseView, FaultView>(BaseView::Unresolved { display: raw }),
{
}

} // verus!
