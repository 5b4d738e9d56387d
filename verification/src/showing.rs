//! What the trees show: every class, member and call that there is, at its place, and nothing else.
use vstd::prelude::*;

use crate::errors::QueryErrorView;
use crate::hierarchy;
use crate::index;
use crate::index::IndexView;
use crate::index::Lookup;
use crate::model;
use crate::model::BaseView;
use crate::model::ClassView;
use crate::model::FieldView;
use crate::model::MethodView;
use crate::model::ModuleView;
use crate::paths;
use crate::render;
use crate::render::RowView;
use crate::resolve;
use crate::sorting;
use crate::text;
use crate::text::Text;

verus! {

/// Whether a row leads to a place in a file and is shown there.
pub open spec fn stands_at(row: RowView, path: Text, line: usize, col: usize) -> bool {
    &&& row.path == path && row.line == line && row.col == col
    &&& row.target_path == path && row.target_line == line && row.target_col == col
}

/// The class of a name in a module at hand, with the module.
pub open spec fn class_there(idx: IndexView, module: Text, class: Text) -> Option<(ModuleView, ClassView)> {
    match idx.lookup(module) {
        Lookup::Known { module: info, .. } => match info.class_named(class) {
            Some(found) => Some((info, found)),
            None => None,
        },
        _ => None,
    }
}

/// Whether a module at hand lies outside the workspace.
pub open spec fn is_outside(idx: IndexView, module: Text) -> bool {
    idx.lookup(module) matches Lookup::Known { external: true, .. }
}

/// The class at hand, inside the workspace or outside it, that a base or a type stands for: its
/// module and its name. A keyword argument stands for none.
pub open spec fn class_behind(idx: IndexView, info: ModuleView, raw: Text) -> Option<(Text, Text)> {
    if raw.contains('=') {
        None
    } else {
        match resolve::base_in(idx, info, raw) {
            Ok(BaseView::Workspace { module, class_name, .. }) => if class_there(idx, module, class_name) is Some {
                Some((module, class_name))
            } else {
                None
            },
            Ok(BaseView::External { module, class_name, .. }) => if class_there(idx, module, class_name) is Some {
                Some((module, class_name))
            } else {
                None
            },
            _ => None,
        }
    }
}

/// Whether the type of a field is a class at hand that has members.
pub open spec fn opens(idx: IndexView, info: ModuleView, field: FieldView) -> bool {
    match field.type_ref {
        None => false,
        Some(raw) => match class_behind(idx, info, raw) {
            None => false,
            Some((module, class)) => class_there(idx, module, class) matches Some((_, found)) && (
            found.fields.len() > 0 || found.methods.len() > 0),
        },
    }
}

/// Whether a label is the last part of a dotted name.
pub open spec fn is_last_part(label: Text, name: Text) -> bool {
    &&& !label.contains('.')
    &&& label == name || exists|start: Text| name == #[trigger] (start.push('.') + label)
}

/// Whether a row shows a field of a class.
pub open spec fn shows_field(idx: IndexView, info: ModuleView, field: FieldView, row: RowView) -> bool {
    &&& row.name == field.name
    &&& stands_at(row, info.path, field.line, field.col)
    &&& row.kind == (if opens(idx, info, field) {
        "field_object"@
    } else {
        "field"@
    })
    &&& row.detail == field.annotation
    &&& row.required == field.required
    &&& row.type_ref == field.type_ref
    &&& (row.type_label is Some <==> field.type_ref is Some)
    &&& (field.type_ref is Some ==> is_last_part(row.type_label->0, field.type_ref->0))
    &&& !row.recursive && !row.truncated && row.children.len() == 0
}

/// Whether a row shows a method of a class.
pub open spec fn shows_method(info: ModuleView, method: MethodView, external: bool, row: RowView) -> bool {
    &&& row.kind == "method"@
    &&& row.name == method.name
    &&& stands_at(row, info.path, method.line, method.col)
    &&& row.external == external
    &&& !row.recursive && !row.truncated && row.children.len() == 0
}

/// Whether a row shows a class, whatever stands below it.
pub open spec fn shows_class(info: ModuleView, class: ClassView, external: bool, row: RowView) -> bool {
    &&& row.kind == "class"@
    &&& row.name == class.name
    &&& stands_at(row, info.path, class.line, class.col)
    &&& row.external == external
}

/// Whether rows show the members of a class: its fields, then its methods, each in their order.
pub open spec fn shows_members(idx: IndexView, info: ModuleView, class: ClassView, external: bool, rows: Seq<RowView>) -> bool {
    &&& rows.len() == class.fields.len() + class.methods.len()
    &&& forall|i: int| 0 <= i < class.fields.len() ==> shows_field(idx, info, class.fields[i], #[trigger] rows[i])
    &&& forall|i: int|
        class.fields.len() <= i < rows.len() ==> shows_method(
            info,
            class.methods[i - class.fields.len()],
            external,
            #[trigger] rows[i],
        )
}

proof fn lemma_last_part(name: Text)
    ensures
        is_last_part(text::after_last(name, '.'), name),
{
    text::lemma_last_position(name, '.');
    let at = text::last_position(name, '.');
    let label = text::after_last(name, '.');
    assert forall|i: int| 0 <= i < label.len() implies label[i] != '.' by {
        assert(label[i] == name[at + 1 + i]);
    }
    if at < 0 {
        assert(label =~= name);
    } else {
        let start = name.take(at);
        assert(name =~= start.push('.') + label);
    }
}

proof fn lemma_field(idx: IndexView, info: ModuleView, field: FieldView)
    ensures
        render::field_row(idx, info, field) matches Ok(row) ==> shows_field(idx, info, field, row),
{
    if let Some(raw) = field.type_ref {
        lemma_last_part(raw);
    }
}

proof fn lemma_fields(idx: IndexView, info: ModuleView, fields: Seq<FieldView>)
    ensures
        render::field_rows(idx, info, fields) matches Ok(rows) ==> rows.len() == fields.len() && forall|i: int|
            0 <= i < fields.len() ==> shows_field(idx, info, fields[i], #[trigger] rows[i]),
    decreases fields.len(),
{
    if fields.len() > 0 {
        lemma_fields(idx, info, fields.drop_last());
        lemma_field(idx, info, fields.last());
    }
}

/// The rows of the members of a class show each of its fields and each of its methods.
pub proof fn law_members_are_all_shown(idx: IndexView, info: ModuleView, class: ClassView, external: bool)
    ensures
        render::member_rows(idx, info, class, external) matches Ok(rows) ==> shows_members(
            idx,
            info,
            class,
            external,
            rows,
        ),
{
    lemma_fields(idx, info, class.fields);
}

/// Whether a row comes before another, or may: by file, then line, then column, then name.
pub open spec fn comes_first(a: RowView, b: RowView) -> bool {
    if paths::plain(a.path) != paths::plain(b.path) {
        sorting::components_le(paths::components(a.path), paths::components(b.path))
    } else if a.line != b.line {
        a.line < b.line
    } else if a.col != b.col {
        a.col < b.col
    } else {
        sorting::key_le(sorting::text_key(a.name), sorting::text_key(b.name))
    }
}

/// Whether rows stand in the order of their places from row `from` on.
pub open spec fn by_place(rows: Seq<RowView>, from: int) -> bool {
    forall|i: int, j: int| from <= i <= j < rows.len() ==> comes_first(#[trigger] rows[i], #[trigger] rows[j])
}

/// Sorting rows loses none and puts them in the order of their places.
pub proof fn lemma_ordered(rows: Seq<RowView>)
    ensures
        render::ordered_rows(rows).len() == rows.len(),
        forall|x: RowView| render::ordered_rows(rows).contains(x) <==> rows.contains(x),
        by_place(render::ordered_rows(rows), 0),
{
    let key = |node: RowView| render::row_key(node);
    let out = render::ordered_rows(rows);
    sorting::law_sorted_is_an_ordered_rearrangement(rows, key);
    assert forall|x: RowView| out.contains(x) <==> rows.contains(x) by {
        sorting::lemma_sorted_contains(rows, key, x);
    }
    assert forall|i: int, j: int| 0 <= i <= j < out.len() implies comes_first(
        #[trigger] out[i],
        #[trigger] out[j],
    ) by {
        assert(sorting::key_le(key(out[i]), key(out[j])));
        render::law_rows_are_ordered_by_place(out[i], out[j]);
        paths::law_paths_are_ordered_by_components(out[i].path, out[j].path);
    }
}

/// How many of these bases stand for classes at hand.
pub open spec fn bases_at_hand(idx: IndexView, info: ModuleView, bases: Seq<Text>) -> nat
    decreases bases.len(),
{
    if bases.len() == 0 {
        0
    } else {
        bases_at_hand(idx, info, bases.drop_last()) + (if class_behind(idx, info, bases.last()) is Some {
            1nat
        } else {
            0
        })
    }
}

/// Whether a row shows a class with all that it inherits from. A class on the way to the row is
/// shown once more, but not what it inherits from. Below any other class stand its members, and
/// behind them, in the order of their places, a row for each of its bases that is a class at hand,
/// inside the workspace or outside it. Only where there is none such the class inherits from
/// `object`, unless it is called so itself or `object` is not at hand.
#[verifier::opaque]
pub open spec fn shows_supertypes(idx: IndexView, row: RowView, module: Text, class: Text, path: Set<Text>) -> bool
    decreases row,
{
    let key = model::class_key_of(module, class);
    let inner = path.insert(key);
    match class_there(idx, module, class) {
        None => false,
        Some((info, found)) => {
            let outside = is_outside(idx, module);
            let members = found.fields.len() + found.methods.len();
            let above = bases_at_hand(idx, info, found.bases);
            let has_object = class_there(idx, "builtins"@, "object"@) is Some;
            &&& shows_class(info, found, outside, row)
            &&& !row.truncated
            &&& row.recursive <==> path.contains(key)
            &&& row.recursive ==> row.children.len() == 0
            &&& !row.recursive ==> {
                &&& members <= row.children.len()
                &&& shows_members(idx, info, found, outside, row.children.take(members as int))
                &&& by_place(row.children, members as int)
                &&& above > 0 ==> {
                    &&& row.children.len() == members + above
                    &&& forall|b: int|
                        0 <= b < found.bases.len() ==> (#[trigger] class_behind(idx, info, found.bases[b]) matches Some(
                            base,
                        ) ==> exists|j: int|
                            members <= j < row.children.len() && shows_supertypes(
                                idx,
                                #[trigger] row.children[j],
                                base.0,
                                base.1,
                                inner,
                            ))
                    &&& forall|j: int|
                        members <= j < row.children.len() ==> (#[trigger] row.children[j].kind) == "class"@ && exists|
                            b: int,
                        |
                            0 <= b < found.bases.len() && (#[trigger] class_behind(idx, info, found.bases[b]) matches Some(
                                base,
                            ) && shows_supertypes(idx, row.children[j], base.0, base.1, inner))
                }
                &&& above == 0 ==> if found.name != "object"@ && has_object {
                    row.children.len() == members + 1 && shows_supertypes(
                        idx,
                        row.children[members as int],
                        "builtins"@,
                        "object"@,
                        inner,
                    )
                } else {
                    row.children.len() == members
                }
            }
        },
    }
}

/// A tree of supertypes shows each class with all that it inherits from. There is one wherever the
/// class is at hand, unless a name on the way could not be followed.
pub proof fn law_supertypes_are_all_shown(idx: IndexView, module: Text, class: Text, path: Set<Text>)
    requires
        idx.wf(),
    ensures
        match render::super_row(idx, module, class, path) {
            Ok(row) => shows_supertypes(idx, row, module, class, path),
            Err(error) => error is Unfollowed || class_there(idx, module, class) is None,
        },
    decreases hierarchy::off_path(idx, path), 0nat, 0nat,
{
    let key = model::class_key_of(module, class);
    let inner = path.insert(key);
    index::lemma_lookup(idx, module);
    if let Some((info, found)) = class_there(idx, module, class) {
        let outside = is_outside(idx, module);
        if path.contains(key) {
            reveal_with_fuel(shows_supertypes, 1);
        } else {
            hierarchy::lemma_off_path(idx, path, module, class);
            law_members_are_all_shown(idx, info, found, outside);
            lemma_supertypes(idx, info, found.bases, inner);
            law_supertypes_are_all_shown(idx, "builtins"@, "object"@, inner);
            if let Ok(row) = render::super_row(idx, module, class, path) {
                let rows = render::super_rows(idx, info, found.bases, inner)->Ok_0;
                let object = render::super_row(idx, "builtins"@, "object"@, inner);
                let above = if rows.len() == 0 && found.name != "object"@ && object is Ok {
                    seq![object->Ok_0]
                } else {
                    rows
                };
                lemma_super_row(idx, module, class, path, row, above);
            }
        }
    }
}

/// A row with the members of its class and, behind them, the rows of its bases shows the class.
proof fn lemma_super_row(idx: IndexView, module: Text, class: Text, path: Set<Text>, row: RowView, above: Seq<RowView>)
    requires
        !path.contains(model::class_key_of(module, class)),
        class_there(idx, module, class) matches Some((info, found)) && {
            let outside = is_outside(idx, module);
            let inner = path.insert(model::class_key_of(module, class));
            let count = bases_at_hand(idx, info, found.bases);
            let shown = render::member_rows(idx, info, found, outside);
            &&& shows_class(info, found, outside, row)
            &&& !row.truncated && !row.recursive
            &&& shown is Ok
            &&& row.children == shown->Ok_0 + render::ordered_rows(above)
            &&& count > 0 ==> above.len() == count && all_bases_shown(idx, info, found.bases, inner, above)
            &&& count == 0 ==> if found.name != "object"@ && class_there(idx, "builtins"@, "object"@) is Some {
                above.len() == 1 && shows_supertypes(idx, above[0], "builtins"@, "object"@, inner)
            } else {
                above.len() == 0
            }
        },
    ensures
        shows_supertypes(idx, row, module, class, path),
{
    let (info, found) = class_there(idx, module, class)->0;
    let outside = is_outside(idx, module);
    let inner = path.insert(model::class_key_of(module, class));
    let shown = render::member_rows(idx, info, found, outside)->Ok_0;
    let out = render::ordered_rows(above);
    let n = shown.len() as int;
    law_members_are_all_shown(idx, info, found, outside);
    lemma_ordered(above);
    assert(row.children.take(n) =~= shown);
    assert(by_place(row.children, n)) by {
        assert forall|i: int, j: int| n <= i <= j < row.children.len() implies comes_first(
            #[trigger] row.children[i],
            #[trigger] row.children[j],
        ) by {
            assert(row.children[i] == out[i - n] && row.children[j] == out[j - n]);
        }
    }
    if bases_at_hand(idx, info, found.bases) > 0 {
        assert(row.children.skip(n) =~= out);
        lemma_bases_are_below(idx, info, found.bases, inner, row, n, above);
    } else if above.len() == 1 {
        assert(out.contains(out[0]));
        assert(above.contains(out[0]));
        assert(row.children[n] == out[0]);
    }
    reveal_with_fuel(shows_supertypes, 1);
}

proof fn lemma_bases_are_below(idx: IndexView, info: ModuleView, bases: Seq<Text>, inner: Set<Text>, row: RowView, n: int, above: Seq<RowView>)
    requires
        0 <= n <= row.children.len(),
        row.children.skip(n) == render::ordered_rows(above),
        all_bases_shown(idx, info, bases, inner, above),
    ensures
        forall|b: int|
            0 <= b < bases.len() ==> (#[trigger] class_behind(idx, info, bases[b]) matches Some(base) ==> exists|
                j: int,
            |
                n <= j < row.children.len() && shows_supertypes(
                    idx,
                    #[trigger] row.children[j],
                    base.0,
                    base.1,
                    inner,
                )),
        forall|j: int|
            n <= j < row.children.len() ==> (#[trigger] row.children[j].kind) == "class"@ && exists|b: int|
                0 <= b < bases.len() && (#[trigger] class_behind(idx, info, bases[b]) matches Some(base)
                    && shows_supertypes(idx, row.children[j], base.0, base.1, inner)),
{
    let out = render::ordered_rows(above);
    lemma_ordered(above);
    assert forall|b: int| 0 <= b < bases.len() implies (#[trigger] class_behind(
        idx,
        info,
        bases[b],
    ) matches Some(base) ==> exists|j: int|
        n <= j < row.children.len() && shows_supertypes(
            idx,
            #[trigger] row.children[j],
            base.0,
            base.1,
            inner,
        )) by {
        if class_behind(idx, info, bases[b]) is Some {
            let x = choose|x: RowView| #[trigger]
                above.contains(x) && shows_base(idx, info, bases[b], inner, x);
            assert(out.contains(x));
            let j = out.index_of(x) + n;
            assert(row.children.skip(n)[j - n] == row.children[j]);
            reveal(shows_base);
        }
    }
    assert forall|j: int| n <= j < row.children.len() implies (#[trigger] row.children[j].kind) == "class"@ && exists|
        b: int,
    |
        0 <= b < bases.len() && (#[trigger] class_behind(idx, info, bases[b]) matches Some(base)
            && shows_supertypes(idx, row.children[j], base.0, base.1, inner)) by {
        let x = row.children[j];
        assert(x == row.children.skip(n)[j - n]);
        assert(out.contains(x));
        assert(above.contains(x));
        let b = choose|b: int| 0 <= b < bases.len() && shows_base(idx, info, #[trigger] bases[b], inner, x);
        reveal(shows_base);
        let base = class_behind(idx, info, bases[b])->0;
        lemma_kind(idx, x, base.0, base.1, inner);
    }
}

proof fn lemma_kind(idx: IndexView, row: RowView, module: Text, class: Text, path: Set<Text>)
    requires
        shows_supertypes(idx, row, module, class, path),
    ensures
        row.kind == "class"@,
{
    reveal_with_fuel(shows_supertypes, 1);
}

/// Whether rows show the classes at hand that bases stand for, all of them and no others.
spec fn all_bases_shown(idx: IndexView, info: ModuleView, bases: Seq<Text>, path: Set<Text>, rows: Seq<RowView>) -> bool {
    &&& forall|b: int|
        0 <= b < bases.len() && (#[trigger] class_behind(idx, info, bases[b])) is Some ==> exists|x: RowView| #[trigger]
            rows.contains(x) && shows_base(idx, info, bases[b], path, x)
    &&& forall|x: RowView| #[trigger]
        rows.contains(x) ==> exists|b: int|
            0 <= b < bases.len() && shows_base(idx, info, #[trigger] bases[b], path, x)
}

/// Whether a row shows the class at hand that a base stands for.
#[verifier::opaque]
spec fn shows_base(idx: IndexView, info: ModuleView, base: Text, path: Set<Text>, row: RowView) -> bool {
    match class_behind(idx, info, base) {
        Some((module, class)) => shows_supertypes(idx, row, module, class, path),
        None => false,
    }
}

proof fn lemma_supertypes(idx: IndexView, info: ModuleView, bases: Seq<Text>, path: Set<Text>)
    requires
        idx.wf(),
    ensures
        match render::super_rows(idx, info, bases, path) {
            Ok(rows) => {
                &&& rows.len() == bases_at_hand(idx, info, bases)
                &&& all_bases_shown(idx, info, bases, path, rows)
            },
            Err(error) => error is Unfollowed,
        },
    decreases hierarchy::off_path(idx, path), 1nat, bases.len(),
{
    if bases.len() > 0 {
        let front = bases.drop_last();
        let raw = bases.last();
        lemma_supertypes(idx, info, front, path);
        match resolve::base_in(idx, info, raw) {
            Ok(BaseView::Workspace { module, class_name, .. }) => {
                law_supertypes_are_all_shown(idx, module, class_name, path);
            },
            Ok(BaseView::External { module, class_name, .. }) => {
                law_supertypes_are_all_shown(idx, module, class_name, path);
            },
            _ => {},
        }
        if let Ok(rows) = render::super_rows(idx, info, bases, path) {
            let before = render::super_rows(idx, info, front, path)->Ok_0;
            if class_behind(idx, info, raw) is Some {
                assert(shows_base(idx, info, raw, path, rows.last())) by {
                    reveal(shows_base);
                }
            } else {
                assert(rows == before);
            }
            assert forall|b: int|
                0 <= b < bases.len() && (#[trigger] class_behind(idx, info, bases[b])) is Some implies exists|
                x: RowView,
            | #[trigger]
                rows.contains(x) && shows_base(idx, info, bases[b], path, x) by {
                if b < front.len() {
                    assert(front[b] == bases[b]);
                    assert(class_behind(idx, info, front[b]) is Some);
                    let x = choose|x: RowView| #[trigger]
                        before.contains(x) && shows_base(idx, info, front[b], path, x);
                    assert(rows[before.index_of(x)] == x);
                    assert(rows.contains(x));
                } else {
                    assert(rows.contains(rows.last()));
                }
            }
            assert forall|x: RowView| #[trigger] rows.contains(x) implies exists|b: int|
                0 <= b < bases.len() && shows_base(idx, info, #[trigger] bases[b], path, x) by {
                let k = rows.index_of(x);
                if k < before.len() {
                    assert(before[k] == x);
                    assert(before.contains(x));
                    let b = choose|b: int|
                        0 <= b < front.len() && shows_base(idx, info, #[trigger] front[b], path, x);
                    assert(front[b] == bases[b]);
                } else {
                    assert(shows_base(idx, info, bases[bases.len() - 1], path, x));
                }
            }
        }
    }
}

/// The classes listed as subtypes of a class.
pub open spec fn heirs(idx: IndexView, module: Text, class: Text) -> Seq<(Text, Text)> {
    let key = model::class_key_of(module, class);
    if idx.subtypes.contains_key(key) {
        idx.subtypes[key]
    } else {
        Seq::empty()
    }
}

/// Whether a class listed as a subtype is a class of the workspace.
pub open spec fn is_heir(idx: IndexView, heir: (Text, Text)) -> bool {
    idx.workspace.contains_key(heir.0) && idx.workspace[heir.0].class_named(heir.1) is Some
}

/// How many of the classes listed are classes of the workspace.
pub open spec fn heirs_at_hand(idx: IndexView, listed: Seq<(Text, Text)>) -> nat
    decreases listed.len(),
{
    if listed.len() == 0 {
        0
    } else {
        heirs_at_hand(idx, listed.drop_last()) + (if is_heir(idx, listed.last()) {
            1nat
        } else {
            0
        })
    }
}

/// A depth as a number of levels, unlimited where none is given.
pub open spec fn levels_of(depth: Option<usize>) -> Option<nat> {
    match depth {
        Some(n) => Some(n as nat),
        None => None,
    }
}

/// The levels that are left below the first one.
pub open spec fn levels_below(levels: Option<nat>) -> Option<nat> {
    match levels {
        Some(n) => Some(
            if n == 0 {
                0
            } else {
                (n - 1) as nat
            },
        ),
        None => None,
    }
}

/// Whether rows show the members of a class, in whatever order.
pub open spec fn holds_members(idx: IndexView, info: ModuleView, class: ClassView, external: bool, rows: Seq<RowView>) -> bool {
    &&& rows.len() == class.fields.len() + class.methods.len()
    &&& forall|i: int|
        #![trigger class.fields[i]]
        0 <= i < class.fields.len() ==> exists|j: int|
            0 <= j < rows.len() && shows_field(idx, info, class.fields[i], #[trigger] rows[j])
    &&& forall|i: int|
        #![trigger class.methods[i]]
        0 <= i < class.methods.len() ==> exists|j: int|
            0 <= j < rows.len() && shows_method(info, class.methods[i], external, #[trigger] rows[j])
}

/// Whether a row shows a class with all that inherits from it, down to a number of levels, and with
/// its members, down to a number of levels of their own. A class on the way to the row is shown once
/// more, but not what inherits from it. Below any other class stand its members and behind them, in
/// the order of their places, a row for each class of the workspace listed as a subtype, unless the
/// levels are used up. Then the members are in the order of their places. The row says whether
/// members or subtypes are left out.
#[verifier::opaque]
pub open spec fn shows_subtypes(idx: IndexView, row: RowView, module: Text, class: Text, path: Set<Text>, levels: Option<nat>, member_levels: Option<nat>) -> bool
    decreases row, 1nat,
{
    let key = model::class_key_of(module, class);
    let inner = path.insert(key);
    match class_there(idx, module, class) {
        None => false,
        Some((info, found)) => {
            let outside = is_outside(idx, module);
            let listed = heirs(idx, module, class);
            let deep = levels is None || levels->0 > 1;
            let wide = member_levels is None || member_levels->0 > 0;
            let members = if wide {
                found.fields.len() + found.methods.len()
            } else {
                0
            };
            &&& shows_class(info, found, outside, row)
            &&& row.recursive <==> path.contains(key)
            &&& row.recursive ==> row.children.len() == 0 && !row.truncated
            &&& !row.recursive ==> {
                &&& row.truncated <==> !wide || (!deep && heirs_at_hand(idx, listed) > 0)
                &&& !deep ==> {
                    &&& row.children.len() == members
                    &&& by_place(row.children, 0)
                    &&& wide ==> holds_members(idx, info, found, outside, row.children)
                }
                &&& deep ==> {
                    &&& row.children.len() == members + heirs_at_hand(idx, listed)
                    &&& wide ==> shows_members(idx, info, found, outside, row.children.take(members as int))
                    &&& by_place(row.children, members as int)
                    &&& shows_heirs(
                        idx,
                        row,
                        members as int,
                        listed,
                        inner,
                        levels_below(levels),
                        levels_below(member_levels),
                    )
                }
            }
        },
    }
}

/// Whether the rows below a row, from row `from` on, show the classes listed that are classes of the
/// workspace, all of them and no others.
#[verifier::opaque]
pub open spec fn shows_heirs(idx: IndexView, row: RowView, from: int, listed: Seq<(Text, Text)>, path: Set<Text>, levels: Option<nat>, member_levels: Option<nat>) -> bool
    decreases row, 0nat,
{
    &&& forall|h: int|
        0 <= h < listed.len() && is_heir(idx, #[trigger] listed[h]) ==> exists|j: int|
            0 <= from <= j < row.children.len() && shows_subtypes(
                idx,
                #[trigger] row.children[j],
                listed[h].0,
                listed[h].1,
                path,
                levels,
                member_levels,
            )
    &&& forall|j: int|
        0 <= from <= j < row.children.len() ==> (#[trigger] row.children[j].kind) == "class"@ && exists|h: int|
            0 <= h < listed.len() && is_heir(idx, #[trigger] listed[h]) && shows_subtypes(
                idx,
                row.children[j],
                listed[h].0,
                listed[h].1,
                path,
                levels,
                member_levels,
            )
}

/// The classes listed that are found are those of the workspace, as many as there are.
pub proof fn lemma_listed(idx: IndexView, listed: Seq<(Text, Text)>)
    ensures
        render::listed_classes(idx, listed).len() == heirs_at_hand(idx, listed),
        forall|h: int|
            0 <= h < listed.len() && is_heir(idx, #[trigger] listed[h]) ==> render::listed_classes(
                idx,
                listed,
            ).contains((listed[h].0, idx.workspace[listed[h].0].class_named(listed[h].1)->0)),
        forall|x: (Text, ClassView)| #[trigger]
            render::listed_classes(idx, listed).contains(x) ==> is_heir(idx, (x.0, x.1.name)) && listed.contains(
                (x.0, x.1.name),
            ),
    decreases listed.len(),
{
    let out = render::listed_classes(idx, listed);
    if listed.len() > 0 {
        let front = listed.drop_last();
        let last = listed.last();
        let before = render::listed_classes(idx, front);
        lemma_listed(idx, front);
        if is_heir(idx, last) {
            model::lemma_class_slot(idx.workspace[last.0].classes, last.1);
            assert(out.contains(out[out.len() - 1]));
            assert(listed.contains(listed[listed.len() - 1]));
        }
        assert forall|h: int| 0 <= h < listed.len() && is_heir(idx, #[trigger] listed[h]) implies out.contains(
            (listed[h].0, idx.workspace[listed[h].0].class_named(listed[h].1)->0),
        ) by {
            if h < front.len() {
                assert(front[h] == listed[h]);
                let x = (listed[h].0, idx.workspace[listed[h].0].class_named(listed[h].1)->0);
                assert(before.contains(x));
                assert(out[before.index_of(x)] == x);
            }
        }
        assert forall|x: (Text, ClassView)| #[trigger] out.contains(x) implies is_heir(idx, (x.0, x.1.name))
            && listed.contains((x.0, x.1.name)) by {
            let k = out.index_of(x);
            if k < before.len() {
                assert(before[k] == x);
                assert(before.contains(x));
                assert(listed[front.index_of((x.0, x.1.name))] == (x.0, x.1.name));
            }
        }
    }
}

/// Whether a row shows one of the classes listed.
#[verifier::opaque]
spec fn shows_heir(idx: IndexView, heir: (Text, Text), path: Set<Text>, levels: Option<nat>, member_levels: Option<nat>, row: RowView) -> bool {
    shows_subtypes(idx, row, heir.0, heir.1, path, levels, member_levels)
}

/// A tree of subtypes shows each class with all that inherits from it, down to the depth asked for,
/// and unlimited where none is asked for. There is one wherever the class is at hand, unless a name
/// on the way could not be followed.
pub proof fn law_subtypes_are_all_shown(idx: IndexView, module: Text, class: Text, path: Set<Text>, depth: Option<usize>, member_depth: Option<usize>)
    requires
        idx.wf(),
    ensures
        match render::sub_row(idx, module, class, path, depth, member_depth) {
            Ok(row) => shows_subtypes(
                idx,
                row,
                module,
                class,
                path,
                levels_of(depth),
                levels_of(member_depth),
            ),
            Err(error) => error is Unfollowed || class_there(idx, module, class) is None,
        },
    decreases hierarchy::off_path(idx, path), 0nat, 0nat,
{
    let key = model::class_key_of(module, class);
    let inner = path.insert(key);
    index::lemma_lookup(idx, module);
    if let Some((info, found)) = class_there(idx, module, class) {
        if path.contains(key) {
            reveal_with_fuel(shows_subtypes, 1);
        } else {
            let listed = heirs(idx, module, class);
            let below = render::direct_subtypes(idx, module, class);
            hierarchy::lemma_off_path(idx, path, module, class);
            lemma_direct_subtypes(idx, module, class);
            lemma_subtypes(idx, below, inner, render::less_deep(depth), render::less_deep(member_depth));
            law_members_are_all_shown(idx, info, found, is_outside(idx, module));
            if let Ok(row) = render::sub_row(idx, module, class, path, depth, member_depth) {
                lemma_sub_row(idx, module, class, path, depth, member_depth, row);
            }
        }
    }
}

/// The direct subtypes of a class are the classes listed that are classes of the workspace.
pub proof fn lemma_direct_subtypes(idx: IndexView, module: Text, class: Text)
    ensures
        ({
            let listed = heirs(idx, module, class);
            let below = render::direct_subtypes(idx, module, class);
            &&& below.len() == heirs_at_hand(idx, listed)
            &&& forall|h: int|
                0 <= h < listed.len() && is_heir(idx, #[trigger] listed[h]) ==> exists|k: int|
                    0 <= k < below.len() && ((#[trigger] below[k]).0, below[k].1.name) == listed[h]
            &&& forall|k: int|
                0 <= k < below.len() ==> is_heir(idx, ((#[trigger] below[k]).0, below[k].1.name)) && listed.contains(
                    (below[k].0, below[k].1.name),
                )
        }),
{
    let listed = heirs(idx, module, class);
    let found = render::listed_classes(idx, listed);
    let key = |child: (Text, ClassView)| render::subtype_key(child);
    let below = render::direct_subtypes(idx, module, class);
    lemma_listed(idx, listed);
    sorting::law_sorted_is_an_ordered_rearrangement(found, key);
    assert forall|h: int| 0 <= h < listed.len() && is_heir(idx, #[trigger] listed[h]) implies exists|k: int|
        0 <= k < below.len() && ((#[trigger] below[k]).0, below[k].1.name) == listed[h] by {
        let x = (listed[h].0, idx.workspace[listed[h].0].class_named(listed[h].1)->0);
        model::lemma_class_slot(idx.workspace[listed[h].0].classes, listed[h].1);
        sorting::lemma_sorted_contains(found, key, x);
        let k = below.index_of(x);
        assert(below[k] == x);
    }
    assert forall|k: int| 0 <= k < below.len() implies is_heir(idx, ((#[trigger] below[k]).0, below[k].1.name))
        && listed.contains((below[k].0, below[k].1.name)) by {
        sorting::lemma_sorted_contains(found, key, below[k]);
        assert(below.contains(below[k]));
    }
}

proof fn lemma_subtypes(idx: IndexView, below: Seq<(Text, ClassView)>, path: Set<Text>, depth: Option<usize>, member_depth: Option<usize>)
    requires
        idx.wf(),
        forall|k: int| 0 <= k < below.len() ==> is_heir(idx, ((#[trigger] below[k]).0, below[k].1.name)),
    ensures
        match render::sub_rows(idx, below, path, depth, member_depth) {
            Ok(rows) => {
                &&& rows.len() == below.len()
                &&& forall|k: int|
                    0 <= k < below.len() ==> shows_heir(
                        idx,
                        (below[k].0, below[k].1.name),
                        path,
                        levels_of(depth),
                        levels_of(member_depth),
                        #[trigger] rows[k],
                    )
            },
            Err(error) => error is Unfollowed,
        },
    decreases hierarchy::off_path(idx, path), 1nat, below.len(),
{
    if below.len() > 0 {
        let front = below.drop_last();
        let (module, class) = below.last();
        assert forall|k: int| 0 <= k < front.len() implies is_heir(
            idx,
            ((#[trigger] front[k]).0, front[k].1.name),
        ) by {
            assert(front[k] == below[k]);
        }
        assert(is_heir(idx, (below[below.len() - 1].0, below[below.len() - 1].1.name)));
        lemma_subtypes(idx, front, path, depth, member_depth);
        law_subtypes_are_all_shown(idx, module, class.name, path, depth, member_depth);
        if let Ok(rows) = render::sub_rows(idx, below, path, depth, member_depth) {
            let before = render::sub_rows(idx, front, path, depth, member_depth)->Ok_0;
            assert forall|k: int| 0 <= k < below.len() implies shows_heir(
                idx,
                (below[k].0, below[k].1.name),
                path,
                levels_of(depth),
                levels_of(member_depth),
                #[trigger] rows[k],
            ) by {
                if k < front.len() {
                    assert(rows[k] == before[k]);
                    assert(front[k] == below[k]);
                } else {
                    reveal(shows_heir);
                }
            }
        }
    }
}

proof fn lemma_reordered_members(idx: IndexView, info: ModuleView, class: ClassView, external: bool, shown: Seq<RowView>)
    requires
        shows_members(idx, info, class, external, shown),
    ensures
        holds_members(idx, info, class, external, render::ordered_rows(shown)),
{
    let rows = render::ordered_rows(shown);
    lemma_ordered(shown);
    assert forall|i: int|
        #![trigger class.fields[i]]
        0 <= i < class.fields.len() implies exists|j: int|
        0 <= j < rows.len() && shows_field(idx, info, class.fields[i], #[trigger] rows[j]) by {
        assert(shown.contains(shown[i]));
        assert(rows[rows.index_of(shown[i])] == shown[i]);
    }
    assert forall|i: int|
        #![trigger class.methods[i]]
        0 <= i < class.methods.len() implies exists|j: int|
        0 <= j < rows.len() && shows_method(info, class.methods[i], external, #[trigger] rows[j]) by {
        let k = i + class.fields.len();
        assert(shown.contains(shown[k]));
        assert(rows[rows.index_of(shown[k])] == shown[k]);
    }
}

/// The row of a class that is not on the way to it shows what it should.
proof fn lemma_sub_row(idx: IndexView, module: Text, class: Text, path: Set<Text>, depth: Option<usize>, member_depth: Option<usize>, row: RowView)
    requires
        idx.wf(),
        !path.contains(model::class_key_of(module, class)),
        class_there(idx, module, class) is Some,
        render::sub_row(idx, module, class, path, depth, member_depth) == Ok::<RowView, QueryErrorView>(row),
        render::sub_rows(
            idx,
            render::direct_subtypes(idx, module, class),
            path.insert(model::class_key_of(module, class)),
            render::less_deep(depth),
            render::less_deep(member_depth),
        ) matches Ok(rows) ==> {
            let below = render::direct_subtypes(idx, module, class);
            &&& rows.len() == below.len()
            &&& forall|k: int|
                0 <= k < below.len() ==> shows_heir(
                    idx,
                    (below[k].0, below[k].1.name),
                    path.insert(model::class_key_of(module, class)),
                    levels_of(render::less_deep(depth)),
                    levels_of(render::less_deep(member_depth)),
                    #[trigger] rows[k],
                )
        },
    ensures
        shows_subtypes(idx, row, module, class, path, levels_of(depth), levels_of(member_depth)),
{
    let (info, found) = class_there(idx, module, class)->0;
    let outside = is_outside(idx, module);
    let inner = path.insert(model::class_key_of(module, class));
    let listed = heirs(idx, module, class);
    let below = render::direct_subtypes(idx, module, class);
    let levels = levels_of(depth);
    let member_levels = levels_of(member_depth);
    let deep = levels is None || levels->0 > 1;
    let wide = member_levels is None || member_levels->0 > 0;
    let shown = if wide {
        render::member_rows(idx, info, found, outside)->Ok_0
    } else {
        Seq::empty()
    };
    let n = shown.len() as int;
    assert(below.len() == heirs_at_hand(idx, listed)) by {
        lemma_direct_subtypes(idx, module, class);
    }
    law_members_are_all_shown(idx, info, found, outside);
    lemma_ordered(shown);
    if deep {
        let rows = render::sub_rows(
            idx,
            below,
            inner,
            render::less_deep(depth),
            render::less_deep(member_depth),
        )->Ok_0;
        let out = render::ordered_rows(rows);
        lemma_ordered(rows);
        assert(row.children == shown + out);
        assert(row.children.take(n) =~= shown);
        assert(row.children.skip(n) =~= out);
        assert(by_place(row.children, n)) by {
            assert forall|i: int, j: int| n <= i <= j < row.children.len() implies comes_first(
                #[trigger] row.children[i],
                #[trigger] row.children[j],
            ) by {
                assert(row.children[i] == out[i - n] && row.children[j] == out[j - n]);
            }
        }
        lemma_heirs_shown(
            idx,
            module,
            class,
            inner,
            levels_below(levels),
            levels_below(member_levels),
            row,
            n,
            rows,
        );
    } else if wide {
        lemma_reordered_members(idx, info, found, outside, shown);
    }
    assert(wide ==> n == found.fields.len() + found.methods.len());
    assert(!wide ==> n == 0);
    assert(shows_class(info, found, outside, row));
    reveal_with_fuel(shows_subtypes, 1);
    reveal_with_fuel(shows_heirs, 1);
}

proof fn lemma_heirs_shown(idx: IndexView, module: Text, class: Text, inner: Set<Text>, levels: Option<nat>, member_levels: Option<nat>, row: RowView, n: int, rows: Seq<RowView>)
    requires
        0 <= n <= row.children.len(),
        row.children.skip(n) == render::ordered_rows(rows),
        rows.len() == render::direct_subtypes(idx, module, class).len(),
        forall|k: int|
            0 <= k < rows.len() ==> shows_heir(
                idx,
                (
                    render::direct_subtypes(idx, module, class)[k].0,
                    render::direct_subtypes(idx, module, class)[k].1.name,
                ),
                inner,
                levels,
                member_levels,
                #[trigger] rows[k],
            ),
    ensures
        shows_heirs(idx, row, n, heirs(idx, module, class), inner, levels, member_levels),
{
    lemma_heirs_are_below(idx, module, class, inner, levels, member_levels, row, n, rows);
    lemma_fold_heirs(idx, heirs(idx, module, class), inner, levels, member_levels, row, n);
}

proof fn lemma_heirs_are_below(idx: IndexView, module: Text, class: Text, inner: Set<Text>, levels: Option<nat>, member_levels: Option<nat>, row: RowView, n: int, rows: Seq<RowView>)
    requires
        0 <= n <= row.children.len(),
        row.children.skip(n) == render::ordered_rows(rows),
        rows.len() == render::direct_subtypes(idx, module, class).len(),
        forall|k: int|
            0 <= k < rows.len() ==> shows_heir(
                idx,
                (
                    render::direct_subtypes(idx, module, class)[k].0,
                    render::direct_subtypes(idx, module, class)[k].1.name,
                ),
                inner,
                levels,
                member_levels,
                #[trigger] rows[k],
            ),
    ensures
        forall|h: int|
            0 <= h < heirs(idx, module, class).len() && is_heir(idx, #[trigger] heirs(idx, module, class)[h]) ==> exists|j: int|
                n <= j < row.children.len() && shows_subtypes(
                    idx,
                    #[trigger] row.children[j],
                    heirs(idx, module, class)[h].0,
                    heirs(idx, module, class)[h].1,
                    inner,
                    levels,
                    member_levels,
                ),
        forall|j: int|
            n <= j < row.children.len() ==> (#[trigger] row.children[j].kind) == "class"@ && exists|h: int|
                0 <= h < heirs(idx, module, class).len() && is_heir(idx, #[trigger] heirs(idx, module, class)[h]) && shows_subtypes(
                    idx,
                    row.children[j],
                    heirs(idx, module, class)[h].0,
                    heirs(idx, module, class)[h].1,
                    inner,
                    levels,
                    member_levels,
                ),
{
    let listed = heirs(idx, module, class);
    let below = render::direct_subtypes(idx, module, class);
    lemma_direct_subtypes(idx, module, class);
    let out = render::ordered_rows(rows);
    lemma_ordered(rows);
    assert forall|h: int| 0 <= h < listed.len() && is_heir(idx, #[trigger] listed[h]) implies exists|j: int|
        n <= j < row.children.len() && shows_subtypes(
            idx,
            #[trigger] row.children[j],
            listed[h].0,
            listed[h].1,
            inner,
            levels,
            member_levels,
        ) by {
        let k = choose|k: int|
            0 <= k < below.len() && ((#[trigger] below[k]).0, below[k].1.name) == listed[h];
        let x = rows[k];
        assert(rows.contains(x));
        let j = out.index_of(x) + n;
        assert(out.contains(x));
        assert(row.children.skip(n)[j - n] == row.children[j]);
        reveal(shows_heir);
    }
    assert forall|j: int| n <= j < row.children.len() implies (#[trigger] row.children[j].kind) == "class"@ && exists|
        h: int,
    |
        0 <= h < listed.len() && is_heir(idx, #[trigger] listed[h]) && shows_subtypes(
            idx,
            row.children[j],
            listed[h].0,
            listed[h].1,
            inner,
            levels,
            member_levels,
        ) by {
        let x = row.children[j];
        assert(x == row.children.skip(n)[j - n]);
        assert(out.contains(x));
        let k = rows.index_of(x);
        assert(rows.contains(x));
        let heir = (below[k].0, below[k].1.name);
        let h = listed.index_of(heir);
        assert(listed[h] == heir);
        reveal(shows_heir);
        assert(shows_heir(idx, heir, inner, levels, member_levels, rows[k]));
        lemma_sub_kind(idx, x, heir.0, heir.1, inner, levels, member_levels);
    }
}

proof fn lemma_fold_heirs(idx: IndexView, listed: Seq<(Text, Text)>, inner: Set<Text>, levels: Option<nat>, member_levels: Option<nat>, row: RowView, n: int)
    requires
        0 <= n,
        forall|h: int|
            0 <= h < listed.len() && is_heir(idx, #[trigger] listed[h]) ==> exists|j: int|
                n <= j < row.children.len() && shows_subtypes(
                    idx,
                    #[trigger] row.children[j],
                    listed[h].0,
                    listed[h].1,
                    inner,
                    levels,
                    member_levels,
                ),
        forall|j: int|
            n <= j < row.children.len() ==> (#[trigger] row.children[j].kind) == "class"@ && exists|h: int|
                0 <= h < listed.len() && is_heir(idx, #[trigger] listed[h]) && shows_subtypes(
                    idx,
                    row.children[j],
                    listed[h].0,
                    listed[h].1,
                    inner,
                    levels,
                    member_levels,
                ),
    ensures
        shows_heirs(idx, row, n, listed, inner, levels, member_levels),
{
    reveal_with_fuel(shows_subtypes, 1);
    reveal_with_fuel(shows_heirs, 1);
}

proof fn lemma_sub_kind(idx: IndexView, row: RowView, module: Text, class: Text, path: Set<Text>, levels: Option<nat>, member_levels: Option<nat>)
    requires
        shows_subtypes(idx, row, module, class, path, levels, member_levels),
    ensures
        row.kind == "class"@,
{
    reveal_with_fuel(shows_subtypes, 1);
}

/// Whether no row of a tree says that something is left out.
pub open spec fn is_whole(row: RowView) -> bool
    decreases row,
{
    !row.truncated && forall|j: int| 0 <= j < row.children.len() ==> is_whole(#[trigger] row.children[j])
}

/// A tree of subtypes without a limit leaves nothing out.
pub proof fn law_unlimited_trees_are_whole(idx: IndexView, row: RowView, module: Text, class: Text, path: Set<Text>)
    requires
        shows_subtypes(idx, row, module, class, path, None, None),
    ensures
        is_whole(row),
    decreases row,
{
    let inner = path.insert(model::class_key_of(module, class));
    let (info, found) = class_there(idx, module, class)->0;
    let listed = heirs(idx, module, class);
    let n = (found.fields.len() + found.methods.len()) as int;
    reveal_with_fuel(shows_subtypes, 1);
    reveal_with_fuel(shows_heirs, 1);
    assert forall|j: int| 0 <= j < row.children.len() implies is_whole(#[trigger] row.children[j]) by {
        if j < n {
            assert(row.children.take(n)[j] == row.children[j]);
        } else {
            assert(row.children[j].kind == "class"@);
            let h = choose|h: int|
                0 <= h < listed.len() && is_heir(idx, #[trigger] listed[h]) && shows_subtypes(
                    idx,
                    row.children[j],
                    listed[h].0,
                    listed[h].1,
                    inner,
                    None,
                    None,
                );
            law_unlimited_trees_are_whole(idx, row.children[j], listed[h].0, listed[h].1, inner);
        }
    }
}

} // verus!
