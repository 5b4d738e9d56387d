//! What class statements and class bodies declare: bases, cut at the commas between them, and fields
//! with their types.
use vstd::prelude::*;

use crate::annotations;
use crate::grammar;
use crate::grammar::Context;
use crate::grammar::Depths;
use crate::grammar::StateView;
use crate::lines;
use crate::model::ClassView;
use crate::model::FieldView;
use crate::reading;
use crate::text;
use crate::text::Text;
use crate::tokens::TokenKindTag;
use crate::tokens::TokenView;

verus! {

/// How many more tokens of one kind than of another stand among tokens `from..to`.
pub open spec fn surplus(t: Seq<TokenView>, from: int, to: int, more: TokenKindTag, less: TokenKindTag) -> int
    decreases to - from,
{
    if to <= from {
        0
    } else {
        surplus(t, from, to - 1, more, less) + (if t[to - 1].kind == more {
            1int
        } else {
            0
        }) - (if t[to - 1].kind == less {
            1int
        } else {
            0
        })
    }
}

/// How many parentheses are open before token `to`, of those opened from token `from` on.
pub open spec fn parens(t: Seq<TokenView>, from: int, to: int) -> int {
    surplus(t, from, to, TokenKindTag::Lpar, TokenKindTag::Rpar)
}

/// How many square brackets are.
pub open spec fn squares(t: Seq<TokenView>, from: int, to: int) -> int {
    surplus(t, from, to, TokenKindTag::Lsqb, TokenKindTag::Rsqb)
}

/// How many braces are.
pub open spec fn braces(t: Seq<TokenView>, from: int, to: int) -> int {
    surplus(t, from, to, TokenKindTag::Lbrace, TokenKindTag::Rbrace)
}

/// Whether no bracket is open before token `to`.
pub open spec fn is_flat(t: Seq<TokenView>, from: int, to: int) -> bool {
    parens(t, from, to) == 0 && squares(t, from, to) == 0 && braces(t, from, to) == 0
}

/// Whether no bracket among tokens `from..to` is closed that was not opened among them.
pub open spec fn is_nested(t: Seq<TokenView>, from: int, to: int) -> bool {
    forall|k: int|
        #![trigger parens(t, from, k)]
        from <= k <= to ==> parens(t, from, k) >= 0 && squares(t, from, k) >= 0 && braces(t, from, k) >= 0
}

/// The source text from the start of token `a` to the end of token `b`, with its words one blank apart.
pub open spec fn span(bytes: Seq<u8>, t: Seq<TokenView>, a: int, b: int) -> Text {
    if 0 <= a < t.len() && 0 <= b < t.len() && t[a].start <= t[b].end <= bytes.len() {
        annotations::one_blank_apart(grammar::lossy(bytes.subrange(t[a].start as int, t[b].end as int)))
    } else {
        annotations::one_blank_apart(Seq::empty())
    }
}

/// Whether tokens are cut at the commas between the bases of a class: behind the parenthesis that opens
/// them, at each comma outside further brackets, and at the parenthesis that closes them.
pub open spec fn cuts_bases(t: Seq<TokenView>, cuts: Seq<int>) -> bool {
    let from = cuts[0] + 1;
    let close = cuts.last();
    &&& cuts.len() >= 2
    &&& 0 <= cuts[0] && close < t.len()
    &&& forall|j: int, k: int| 0 <= j < k < cuts.len() ==> cuts[j] < cuts[k]
    &&& t[cuts[0]].kind == TokenKindTag::Lpar && t[close].kind == TokenKindTag::Rpar
    &&& is_nested(t, from, close) && parens(t, from, close) == 0
    &&& forall|j: int|
        0 < j < cuts.len() - 1 ==> t[#[trigger] cuts[j]].kind == TokenKindTag::Comma && is_flat(t, from, cuts[j])
    &&& forall|k: int|
        from <= k < close && (#[trigger] t[k]).kind == TokenKindTag::Comma && is_flat(t, from, k) ==> cuts.contains(k)
}

/// What is written between the cuts, from cut `j` on; where nothing is, there is no base.
pub open spec fn bases_between(bytes: Seq<u8>, t: Seq<TokenView>, cuts: Seq<int>, j: int) -> Seq<Text>
    decreases cuts.len() - j,
{
    if j < 0 || j >= cuts.len() - 1 {
        Seq::empty()
    } else {
        let base = span(bytes, t, cuts[j] + 1, cuts[j + 1] - 1);
        let here = if cuts[j] + 1 < cuts[j + 1] && base.len() > 0 {
            seq![base]
        } else {
            Seq::empty()
        };
        here + bases_between(bytes, t, cuts, j + 1)
    }
}

proof fn lemma_span(bytes: Seq<u8>, t: Seq<TokenView>, start: int, end: int)
    ensures
        grammar::base_between(bytes, t, start, end) == (if start < end && span(bytes, t, start, end - 1).len() > 0 {
            seq![span(bytes, t, start, end - 1)]
        } else {
            Seq::empty()
        }),
        annotations::one_blank_apart(grammar::span_text(bytes, t, start, end - 1)) == span(bytes, t, start, end - 1),
{
}

/// The brackets that the reader counts as open.
spec fn counted(t: Seq<TokenView>, from: int, to: int, outer: int) -> Depths {
    Depths { paren: parens(t, from, to) + outer, square: squares(t, from, to), brace: braces(t, from, to) }
}

proof fn lemma_counted(t: Seq<TokenView>, from: int, i: int, to: int, outer: int)
    requires
        from <= i < to,
        outer >= 0,
        is_nested(t, from, to),
    ensures
        counted(t, from, i, outer).after(t[i].kind) == counted(t, from, i + 1, outer),
{
    reveal_with_fuel(surplus, 2);
    assert(parens(t, from, i) >= 0);
    assert(parens(t, from, i + 1) >= 0);
}

proof fn lemma_bases(bytes: Seq<u8>, t: Seq<TokenView>, cuts: Seq<int>, j: int, i: int)
    requires
        cuts_bases(t, cuts),
        0 <= j < cuts.len() - 1,
        cuts[j] < i <= cuts[j + 1],
    ensures
        grammar::bases_from(bytes, t, i, cuts[j] + 1, counted(t, cuts[0] + 1, i, 1)) == bases_between(
            bytes,
            t,
            cuts,
            j,
        ),
    decreases t.len() - i,
{
    let from = cuts[0] + 1;
    let close = cuts.last();
    let depths = counted(t, from, i, 1);
    lemma_span(bytes, t, cuts[j] + 1, cuts[j + 1]);
    assert(j + 1 < cuts.len() - 1 ==> cuts[j + 1] < close);
    assert(0 < j ==> cuts[0] < cuts[j]);
    assert(parens(t, from, i) >= 0);
    if i == cuts[j + 1] {
        if j + 1 == cuts.len() - 1 {
            assert(bases_between(bytes, t, cuts, j + 1) =~= Seq::<Text>::empty());
            assert(grammar::bases_from(bytes, t, i, cuts[j] + 1, depths) == grammar::base_between(
                bytes,
                t,
                cuts[j] + 1,
                i,
            ));
            assert(bases_between(bytes, t, cuts, j) =~= grammar::base_between(bytes, t, cuts[j] + 1, i));
        } else {
            assert(t[cuts[j + 1]].kind == TokenKindTag::Comma && is_flat(t, from, cuts[j + 1]));
            lemma_counted(t, from, i, close, 1);
            assert(depths.after(t[i].kind) == depths);
            assert(cuts[j + 1] < cuts[j + 2]);
            lemma_bases(bytes, t, cuts, j + 1, i + 1);
        }
    } else {
        lemma_counted(t, from, i, close, 1);
        if t[i].kind == TokenKindTag::Comma && is_flat(t, from, i) {
            assert(cuts.contains(i));
            let m = cuts.index_of(i);
            if m <= j {
                assert(m == j || cuts[m] < cuts[j]);
            } else {
                assert(m == j + 1 || cuts[j + 1] < cuts[m]);
            }
        }
        if t[i].kind == TokenKindTag::Rpar {
            reveal_with_fuel(surplus, 2);
            assert(parens(t, from, i + 1) >= 0);
        }
        lemma_bases(bytes, t, cuts, j, i + 1);
    }
}

/// The bases of a class are what is written between the commas of its parentheses that stand in no
/// further brackets, in their order.
pub proof fn law_bases_are_cut_at_commas(bytes: Seq<u8>, t: Seq<TokenView>, cuts: Seq<int>)
    requires
        cuts_bases(t, cuts),
    ensures
        grammar::class_bases(bytes, t, cuts[0]) == bases_between(bytes, t, cuts, 0),
{
    let open = cuts[0];
    assert(cuts[0] < cuts[1]);
    assert(counted(t, open + 1, open + 1, 1) == (Depths { paren: 1, square: 0, brace: 0 }));
    lemma_bases(bytes, t, cuts, 0, open + 1);
}

/// A class without parentheses has no bases.
pub proof fn law_no_parentheses_no_bases(bytes: Seq<u8>, t: Seq<TokenView>, i: int)
    requires
        i >= t.len() || (0 <= i && t[i].kind != TokenKindTag::Lpar && t[i].kind != TokenKindTag::Lsqb),
    ensures
        grammar::class_bases(bytes, t, i).len() == 0,
{
}

/// Whether a type ends before token `end`: at the first equals sign outside brackets, or with the
/// statement.
pub open spec fn ends_type(t: Seq<TokenView>, end: int) -> bool {
    &&& 2 <= end <= t.len()
    &&& end < t.len() ==> t[end].kind == TokenKindTag::Equal && is_flat(t, 2, end)
    &&& forall|k: int| 2 <= k < end && (#[trigger] t[k]).kind == TokenKindTag::Equal ==> !is_flat(t, 2, k)
}

proof fn lemma_equal(t: Seq<TokenView>, end: int, i: int)
    requires
        ends_type(t, end),
        is_nested(t, 2, end),
        2 <= i <= end,
    ensures
        grammar::top_level_equal(t, i, counted(t, 2, i, 0)) == (if end < t.len() {
            Some(end)
        } else {
            None::<int>
        }),
    decreases end - i,
{
    if i < end {
        lemma_counted(t, 2, i, end, 0);
        lemma_equal(t, end, i + 1);
    }
}

/// Whether a field has the name and place of token 0, and its type the place of token 2.
pub open spec fn is_placed(bytes: Seq<u8>, t: Seq<TokenView>, field: FieldView) -> bool {
    &&& field.name == reading::spelled(bytes, t[0])
    &&& field.line == lines::line_number(bytes, t[0].start as int) as usize
    &&& field.col == lines::column(bytes, t[0].start as int) as usize
    &&& field.type_line == Some(lines::line_number(bytes, t[2].start as int) as usize)
    &&& field.type_col == Some(lines::column(bytes, t[2].start as int) as usize)
}

/// Whether a reference is to the head of a type: none where there is no head.
pub open spec fn refers_to_head(type_ref: Option<Text>, written: Text) -> bool {
    let head = annotations::type_head(written);
    if head.len() == 0 {
        type_ref is None
    } else {
        type_ref == Some(head)
    }
}

/// `name: type` in a class body declares a field with that type. It is required exactly where it has
/// no default and its type admits no `None`.
pub proof fn law_annotated_names_are_fields(ctx: Context, t: Seq<TokenView>, end: int, bases: Seq<Text>)
    requires
        t.len() >= 3,
        t[0].kind == TokenKindTag::Name,
        t[1].kind == TokenKindTag::Colon,
        ends_type(t, end),
        end > 2,
        is_nested(t, 2, end),
    ensures
        grammar::declared_field(ctx, t, bases) matches Some(field) && {
            let written = span(ctx.bytes, t, 2, end - 1);
            &&& is_placed(ctx.bytes, t, field)
            &&& field.annotation == written
            &&& field.required == (end == t.len() && annotations::demands_value(written))
            &&& refers_to_head(field.type_ref, written)
        },
{
    assert(counted(t, 2, 2, 0) == (Depths { paren: 0, square: 0, brace: 0 }));
    lemma_equal(t, end, 2);
    lemma_span(ctx.bytes, t, 2, end);
}

/// Whether a base is one of the classes of enums, by its last name.
pub open spec fn names_enum_class(base: Text) -> bool {
    exists|start: Text, last: Text|
        (start.len() == 0 || start.last() == '.') && base == #[trigger] (start + last) && (last == "Enum"@ || last
            == "IntEnum"@ || last == "StrEnum"@ || last == "Flag"@ || last == "IntFlag"@)
}

proof fn lemma_enum_base(base: Text)
    ensures
        annotations::is_enum_base(base) <==> names_enum_class(base),
{
    reveal_strlit("Enum");
    reveal_strlit("IntEnum");
    reveal_strlit("StrEnum");
    reveal_strlit("Flag");
    reveal_strlit("IntFlag");
    text::lemma_last_position(base, '.');
    let at = text::last_position(base, '.');
    let head = text::after_last(base, '.');
    let front = base.take(at + 1);
    assert(base =~= front + head);
    if names_enum_class(base) {
        let (start, last) = choose|start: Text, last: Text|
            (start.len() == 0 || start.last() == '.') && base == #[trigger] (start + last) && (last == "Enum"@ || last
                == "IntEnum"@ || last == "StrEnum"@ || last == "Flag"@ || last == "IntFlag"@);
        assert(!last.contains('.'));
        assert forall|k: int| start.len() <= k < base.len() implies base[k] != '.' by {
            assert(base[k] == last[k - start.len()]);
            assert(last.contains(last[k - start.len()]));
        }
        if start.len() > 0 {
            assert(base[start.len() - 1] == '.');
        }
        assert(at == start.len() - 1);
        assert(head =~= last);
    }
}

/// `name = value` in a class body declares a field with that value. In an enum it is a member, whose
/// type is read off the value; elsewhere the value stands in for the type and the field is required.
pub proof fn law_assigned_names_are_fields(ctx: Context, t: Seq<TokenView>, bases: Seq<Text>)
    requires
        t.len() >= 3,
        t[0].kind == TokenKindTag::Name,
        t[1].kind == TokenKindTag::Equal,
        span(ctx.bytes, t, 2, t.len() - 1).len() > 0,
    ensures
        grammar::declared_field(ctx, t, bases) matches Some(field) && {
            let value = span(ctx.bytes, t, 2, t.len() - 1);
            let first = value[0];
            &&& is_placed(ctx.bytes, t, field)
            &&& if exists|i: int| 0 <= i < bases.len() && names_enum_class(#[trigger] bases[i]) {
                &&& !field.required && field.type_ref is None
                &&& first == '"' || first == '\'' ==> field.annotation == "str"@
                &&& '0' <= first <= '9' || first == '-' ==> field.annotation == "int"@
                &&& first != '"' && first != '\'' && !('0' <= first <= '9') && first != '-' ==> field.annotation.len()
                    == 0
            } else {
                field.required && field.annotation == value && refers_to_head(field.type_ref, value)
            }
        },
{
    lemma_span(ctx.bytes, t, 2, t.len() as int);
    assert forall|i: int| 0 <= i < bases.len() implies (annotations::is_enum_base(#[trigger] bases[i])
        <==> names_enum_class(bases[i])) by {
        lemma_enum_base(bases[i]);
    }
    if annotations::has_enum_base(bases) {
        let i = choose|i: int| 0 <= i < bases.len() && annotations::is_enum_base(#[trigger] bases[i]);
        assert(names_enum_class(bases[i]));
    }
    if exists|i: int| 0 <= i < bases.len() && names_enum_class(#[trigger] bases[i]) {
        let i = choose|i: int| 0 <= i < bases.len() && names_enum_class(#[trigger] bases[i]);
        assert(annotations::is_enum_base(bases[i]));
    }
}

proof fn lemma_flattened(a: Text, b: Text)
    ensures
        annotations::flattened(a + b) == annotations::flattened(a) + annotations::flattened(b),
    decreases b.len(),
{
    if b.len() == 0 {
        assert(a + b =~= a);
        assert(annotations::flattened(a) + annotations::flattened(b) =~= annotations::flattened(a));
    } else {
        lemma_flattened(a, b.drop_last());
        assert((a + b).drop_last() =~= a + b.drop_last());
        assert(annotations::flattened(a + b) =~= annotations::flattened(a) + annotations::flattened(b));
    }
}

proof fn lemma_flat_chars(s: Text, c: char)
    requires
        !s.contains(c),
        !('a' <= c <= 'z'),
    ensures
        !annotations::flattened(s).contains(c),
    decreases s.len(),
{
    if s.len() > 0 {
        let front = s.drop_last();
        let before = annotations::flattened(front);
        assert forall|i: int| 0 <= i < front.len() implies front[i] != c by {
            assert(s.contains(s[i]));
        }
        assert(s.contains(s[s.len() - 1]));
        lemma_flat_chars(front, c);
        if s.last() != ' ' {
            let last = annotations::lower(s.last());
            assert(last != c) by {
                if 'A' <= s.last() <= 'Z' {
                    assert((s.last() as u32) as int == s.last() as int);
                    assert(last as int == s.last() as int + 32);
                }
            }
            vstd::seq_lib::lemma_seq_contains_after_push(before, last, c);
        }
    }
}

/// A type that admits `None` as an alternative, or is written as optional, demands no value, whatever
/// stands around.
pub proof fn law_none_needs_no_value(before: Text, after: Text)
    ensures
        !annotations::demands_value(before + "| None"@ + after),
        !annotations::demands_value(before + "|None"@ + after),
        !annotations::demands_value(before + "Optional["@ + after),
{
    lemma_needle(before, "| None"@, after, "|none"@);
    lemma_needle(before, "|None"@, after, "|none"@);
    lemma_needle(before, "Optional["@, after, "optional["@);
    reveal_strlit("| None");
    reveal_strlit("|None");
    reveal_strlit("|none");
    reveal_strlit("Optional[");
    reveal_strlit("optional[");
    reveal_with_fuel(annotations::flattened, 12);
    assert(annotations::flattened("| None"@) =~= "|none"@);
    assert(annotations::flattened("|None"@) =~= "|none"@);
    assert(annotations::flattened("Optional["@) =~= "optional["@);
}

proof fn lemma_needle(before: Text, middle: Text, after: Text, needle: Text)
    ensures
        annotations::flattened(middle) == needle ==> text::occurs(
            annotations::flattened(before + middle + after),
            needle,
        ),
{
    let flat = annotations::flattened(before + middle + after);
    lemma_flattened(before, middle);
    lemma_flattened(before + middle, after);
    if annotations::flattened(middle) == needle {
        let i = annotations::flattened(before).len() as int;
        assert(flat.subrange(i, i + needle.len()) =~= needle);
    }
}

/// A type without alternatives, arguments and equals signs demands a value.
pub proof fn law_plain_types_need_a_value(annotation: Text)
    requires
        !annotation.contains('|'),
        !annotation.contains('['),
        !annotation.contains('='),
    ensures
        annotations::demands_value(annotation),
{
    let flat = annotations::flattened(annotation);
    lemma_flat_chars(annotation, '|');
    lemma_flat_chars(annotation, '[');
    lemma_flat_chars(annotation, '=');
    reveal_strlit("|none");
    reveal_strlit("optional[");
    reveal_strlit("=none");
    lemma_absent(flat, "|none"@, 0);
    lemma_absent(flat, "optional["@, 8);
    lemma_absent(flat, "=none"@, 0);
}

proof fn lemma_absent(s: Text, needle: Text, k: int)
    requires
        0 <= k < needle.len(),
        !s.contains(needle[k]),
    ensures
        !text::occurs(s, needle),
{
    if text::occurs(s, needle) {
        let i = choose|i: int|
            0 <= i <= s.len() - needle.len() && #[trigger] s.subrange(i, i + needle.len()) == needle;
        assert(s.subrange(i, i + needle.len())[k] == s[i + k]);
        assert(s.contains(s[i + k]));
    }
}

/// A statement in the body of a class, and not deeper, that declares a field adds it to that class,
/// together with a reference from the field to its type; one that declares none changes nothing.
pub proof fn law_fields_belong_to_their_class(ctx: Context, st: StateView, c: int)
    requires
        st.statement.len() > 0,
        reading::stands_outside_functions(st),
        st.scopes.len() > 0,
        st.scopes.last().owner == grammar::OwnerView::Class(c),
        st.scopes.last().body_indent == st.indent,
        0 <= c < st.classes.len(),
        st.statement[0].kind != TokenKindTag::Class,
        !reading::defines_at(st.statement, 1) && !reading::defines_at(st.statement, 2),
    ensures
        ({
            let after = grammar::after_statement(ctx, st);
            match grammar::declared_field(ctx, st.statement, st.classes[c].bases) {
                None => after == st,
                Some(field) => {
                    &&& after.classes.len() == st.classes.len()
                    &&& after.classes[c].fields == st.classes[c].fields.push(field)
                    &&& after.classes[c].name == st.classes[c].name && after.classes[c].bases == st.classes[c].bases
                        && after.classes[c].methods == st.classes[c].methods
                    &&& forall|m: int| 0 <= m < st.classes.len() && m != c ==> after.classes[m] == #[trigger] st.classes[m]
                    &&& after.imports == st.imports && after.star_imports == st.star_imports && after.scopes
                        == st.scopes && after.pending == st.pending
                    &&& field.type_ref is None ==> after.functions == st.functions
                    &&& field.type_ref is Some ==> {
                        let n = st.functions.len() as int;
                        let added = after.functions[n];
                        &&& after.functions.len() == n + 1
                        &&& forall|m: int| 0 <= m < n ==> after.functions[m] == #[trigger] st.functions[m]
                        &&& added.name == field.name && added.line == field.line && added.col == field.col
                        &&& added.kind == 8 && added.class_name == Some(st.classes[c].name)
                        &&& added.calls.len() == 1 && added.calls[0].raw_target == field.type_ref->0
                        &&& Some(added.calls[0].range.start.line) == field.type_line
                        &&& Some(added.calls[0].range.start.col) == field.type_col
                    }
                },
            }
        }),
{
    reading::lemma_function_scope(st.scopes);
    assert(grammar::class_scope(st.scopes) == Some(st.scopes.last()));
    let after = grammar::after_statement(ctx, st);
    if let Some(field) = grammar::declared_field(ctx, st.statement, st.classes[c].bases) {
        assert(after.functions =~= st.functions + grammar::field_reference(field, st.classes[c].name));
        assert(field.type_ref is None ==> after.functions =~= st.functions);
        assert(field.type_line is Some && field.type_col is Some);
    }
}

/// Type parameters in square brackets behind the name of a class are passed over.
pub proof fn law_type_parameters_are_no_bases(bytes: Seq<u8>, t: Seq<TokenView>, i: int, end: int)
    requires
        0 <= i < end < t.len(),
        t[i].kind == TokenKindTag::Lsqb,
        t[end - 1].kind == TokenKindTag::Rsqb,
        squares(t, i, end) == 0,
        forall|k: int| i < k < end ==> #[trigger] squares(t, i, k) > 0,
        t[end].kind != TokenKindTag::Lsqb,
    ensures
        grammar::class_bases(bytes, t, i) == grammar::class_bases(bytes, t, end),
{
    lemma_square_end(t, i, end, i);
    assert(grammar::square_end(t, i, 0) == end);
    reveal_with_fuel(grammar::past_squares, 2);
}

proof fn lemma_square_end(t: Seq<TokenView>, i: int, end: int, k: int)
    requires
        0 <= i <= k < end < t.len(),
        t[i].kind == TokenKindTag::Lsqb,
        squares(t, i, end) == 0,
        forall|m: int| i < m < end ==> #[trigger] squares(t, i, m) > 0,
    ensures
        grammar::square_end(t, k, squares(t, i, k)) == end,
    decreases end - k,
{
    reveal_with_fuel(surplus, 2);
    assert(squares(t, i, i) == 0);
    assert(i < k ==> squares(t, i, k) > 0);
    if k + 1 < end {
        assert(squares(t, i, k + 1) > 0);
        lemma_square_end(t, i, end, k + 1);
    }
}

/// Whether one of these classes has a name and one of the bases of enums.
pub open spec fn names_enum_of(classes: Seq<ClassView>, name: Text) -> bool {
    exists|k: int, b: int|
        0 <= k < classes.len() && 0 <= b < classes[k].bases.len() && classes[k].name == name && names_enum_class(
            #[trigger] classes[k].bases[b],
        )
}

proof fn lemma_names_enum(classes: Seq<ClassView>, name: Text)
    ensures
        grammar::names_enum(classes, name) <==> names_enum_of(classes, name),
{
    if grammar::names_enum(classes, name) {
        let k = choose|k: int|
            0 <= k < classes.len() && (#[trigger] classes[k]).name == name && annotations::has_enum_base(
                classes[k].bases,
            );
        let b = choose|b: int|
            0 <= b < classes[k].bases.len() && annotations::is_enum_base(#[trigger] classes[k].bases[b]);
        lemma_enum_base(classes[k].bases[b]);
        assert(names_enum_class(classes[k].bases[b]));
    }
    if names_enum_of(classes, name) {
        let (k, b) = choose|k: int, b: int|
            0 <= k < classes.len() && 0 <= b < classes[k].bases.len() && classes[k].name == name && names_enum_class(
                #[trigger] classes[k].bases[b],
            );
        lemma_enum_base(classes[k].bases[b]);
        assert(annotations::is_enum_base(classes[k].bases[b]));
        assert(classes[k].name == name);
    }
}

/// Once all classes of a module are known, they are as they were read; only fields whose type is an enum
/// of the module are no longer required.
pub proof fn law_settling_changes_enum_fields_only(classes: Seq<ClassView>, c: int, f: int)
    requires
        0 <= c < classes.len(),
    ensures
        grammar::settled(classes).len() == classes.len(),
        ({
            let before = classes[c];
            let after = grammar::settled(classes)[c];
            &&& after.name == before.name && after.line == before.line && after.col == before.col && after.bases
                == before.bases && after.methods == before.methods && after.fields.len() == before.fields.len()
            &&& 0 <= f < before.fields.len() ==> {
                let old_field = before.fields[f];
                let field = after.fields[f];
                &&& field.name == old_field.name && field.annotation == old_field.annotation && field.line
                    == old_field.line && field.col == old_field.col && field.type_ref == old_field.type_ref
                    && field.type_line == old_field.type_line && field.type_col == old_field.type_col
                &&& field.required == (old_field.required && !(old_field.type_ref is Some && names_enum_of(
                    classes,
                    old_field.type_ref->0,
                )))
            }
        }),
{
    if 0 <= f < classes[c].fields.len() && classes[c].fields[f].type_ref is Some {
        lemma_names_enum(classes, classes[c].fields[f].type_ref->0);
    }
}

/// The reference from a field to its type covers the type: as many columns as its head is long.
pub proof fn law_type_references_cover_the_type(field: FieldView, owner: Text)
    requires
        field.type_ref is Some,
        field.type_ref->0.len() > 0,
        field.type_line is Some && field.type_col is Some,
        field.type_col->0 + field.type_ref->0.len() <= usize::MAX,
    ensures
        ({
            let reference = grammar::field_reference(field, owner);
            let range = reference[0].calls[0].range;
            &&& reference.len() == 1
            &&& range.start.line == field.type_line->0 && range.end.line == field.type_line->0
            &&& range.start.col == field.type_col->0
            &&& range.end.col - range.start.col + 1 == field.type_ref->0.len()
        }),
{
}

} // verus!
