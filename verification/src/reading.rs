//! What is read off the tokens of a statement: every call, every reference and every import that is
//! there, and nothing else.
use vstd::prelude::*;

use crate::following;
use crate::grammar;
use crate::grammar::Context;
use crate::grammar::FrameView;
use crate::grammar::OwnerView;
use crate::grammar::StateView;
use crate::lines;
use crate::model::BindingView;
use crate::model::CallView;
use crate::model::MethodView;
use crate::text;
use crate::text::Text;
use crate::tokens::TokenKindTag;
use crate::tokens::TokenView;

verus! {

/// Whether tokens `i..end` are a whole dotted name: names with a dot between each two, which no
/// further dot and name follow.
pub open spec fn spells_path(t: Seq<TokenView>, i: int, end: int) -> bool {
    &&& 0 <= i < end <= t.len()
    &&& (end - i) % 2 == 1
    &&& forall|k: int|
        i <= k < end ==> (#[trigger] t[k]).kind == (if (k - i) % 2 == 0 {
            TokenKindTag::Name
        } else {
            TokenKindTag::Dot
        })
    &&& !(end + 1 < t.len() && t[end].kind == TokenKindTag::Dot && t[end + 1].kind == TokenKindTag::Name)
}

/// The source text of a token.
pub open spec fn spelled(bytes: Seq<u8>, token: TokenView) -> Text {
    if token.start <= token.end <= bytes.len() {
        grammar::lossy(bytes.subrange(token.start as int, token.end as int))
    } else {
        Seq::empty()
    }
}

/// The names of a dotted name.
pub open spec fn path_names(bytes: Seq<u8>, t: Seq<TokenView>, i: int, end: int) -> Seq<Text> {
    Seq::new(((end - i + 1) / 2) as nat, |k: int| spelled(bytes, t[i + 2 * k]))
}

/// Whether a site is that of the dotted name from token `i` to before token `end`: it names what the
/// name spells, and reaches from the start of its first token to the end of its last one.
pub open spec fn is_site(bytes: Seq<u8>, t: Seq<TokenView>, i: int, end: int, site: CallView) -> bool {
    &&& site.raw_target == text::joined(path_names(bytes, t, i, end), seq!['.'])
    &&& site.range.start.line == lines::line_number(bytes, t[i].start as int) as usize
    &&& site.range.start.col == lines::column(bytes, t[i].start as int) as usize
    &&& site.range.end.line == lines::line_number(bytes, t[end - 1].end as int) as usize
    &&& site.range.end.col == lines::column(bytes, t[end - 1].end as int) as usize
}

/// Whether a dotted name is called: a parenthesis stands behind it, and no dot before it.
pub open spec fn is_called(t: Seq<TokenView>, i: int, end: int) -> bool {
    &&& spells_path(t, i, end)
    &&& end < t.len() && t[end].kind == TokenKindTag::Lpar
    &&& i == 0 || t[i - 1].kind != TokenKindTag::Dot
}

/// Whether a dotted name of a statement read from token `first` on is referred to: it is neither
/// called nor the name of an argument, and no dot stands before it.
pub open spec fn is_referred(t: Seq<TokenView>, first: int, i: int, end: int) -> bool {
    &&& first <= i && spells_path(t, i, end)
    &&& end < t.len() ==> t[end].kind != TokenKindTag::Lpar && t[end].kind != TokenKindTag::Equal
    &&& i == first || t[i - 1].kind != TokenKindTag::Dot
}

proof fn lemma_chain(t: Seq<TokenView>, i: int)
    requires
        0 <= i <= t.len(),
    ensures
        i <= grammar::chain_end(t, i) <= t.len(),
        (grammar::chain_end(t, i) - i) % 2 == 0,
        forall|k: int|
            i <= k < grammar::chain_end(t, i) ==> (#[trigger] t[k]).kind == (if (k - i) % 2 == 0 {
                TokenKindTag::Dot
            } else {
                TokenKindTag::Name
            }),
        ({
            let end = grammar::chain_end(t, i);
            !(end + 1 < t.len() && t[end].kind == TokenKindTag::Dot && t[end + 1].kind
                == TokenKindTag::Name)
        }),
    decreases t.len() - i,
{
    if grammar::kind_at(t, i) == Some(TokenKindTag::Dot) && grammar::kind_at(t, i + 1) == Some(
        TokenKindTag::Name,
    ) {
        lemma_chain(t, i + 2);
    }
}

proof fn lemma_names(bytes: Seq<u8>, t: Seq<TokenView>, i: int, end: int)
    requires
        i < end,
        (end - i) % 2 == 1,
    ensures
        grammar::chain_names(bytes, t, i, end) == path_names(bytes, t, i, end),
    decreases end - i,
{
    reveal_with_fuel(grammar::chain_names, 2);
    if i + 2 < end {
        lemma_names(bytes, t, i + 2, end);
        let rest = path_names(bytes, t, i + 2, end);
        assert(path_names(bytes, t, i, end) =~= seq![spelled(bytes, t[i])] + rest) by {
            assert forall|k: int| 0 < k < path_names(bytes, t, i, end).len() implies path_names(
                bytes,
                t,
                i,
                end,
            )[k] == rest[k - 1] by {
                assert(i + 2 * k == (i + 2) + 2 * (k - 1));
            }
        }
    } else {
        assert(end == i + 1);
        assert(path_names(bytes, t, i, end) =~= seq![spelled(bytes, t[i])]);
        assert(grammar::chain_names(bytes, t, i + 2, end) =~= Seq::<Text>::empty());
    }
}

/// The dotted name at a token is the one that is read there.
pub proof fn lemma_path(bytes: Seq<u8>, t: Seq<TokenView>, i: int)
    requires
        0 <= i < t.len(),
        t[i].kind == TokenKindTag::Name,
    ensures
        spells_path(t, i, grammar::chain_end(t, i + 1)),
        forall|end: int| spells_path(t, i, end) ==> end == grammar::chain_end(t, i + 1),
        grammar::dotted(bytes, t, i) == Some(
            (
                text::joined(path_names(bytes, t, i, grammar::chain_end(t, i + 1)), seq!['.']),
                grammar::chain_end(t, i + 1),
            ),
        ),
{
    let stop = grammar::chain_end(t, i + 1);
    lemma_chain(t, i + 1);
    lemma_names(bytes, t, i, stop);
    reveal_strlit(".");
    assert("."@ =~= seq!['.']);
    assert forall|end: int| spells_path(t, i, end) implies end == stop by {
        if end < stop {
            assert(t[end].kind == TokenKindTag::Dot);
            assert(t[end + 1].kind == TokenKindTag::Name);
        } else if stop < end {
            assert(t[stop].kind == TokenKindTag::Dot);
            assert(t[stop + 1].kind == TokenKindTag::Name);
        }
    }
}

/// No name behind the first one of a dotted name starts one itself.
proof fn lemma_inside(t: Seq<TokenView>, i: int, end: int, k: int)
    requires
        spells_path(t, i, end),
        i < k < end,
    ensures
        t[k].kind != TokenKindTag::Name || t[k - 1].kind == TokenKindTag::Dot,
{
    assert(t[k].kind == (if (k - i) % 2 == 0 { TokenKindTag::Name } else { TokenKindTag::Dot }));
    assert(t[k - 1].kind == (if (k - 1 - i) % 2 == 0 { TokenKindTag::Name } else { TokenKindTag::Dot }));
}

/// Whether places list, in order, the calls among tokens from `from` on, each with its site.
pub open spec fn are_the_calls(bytes: Seq<u8>, t: Seq<TokenView>, from: int, at: Seq<(int, int)>, sites: Seq<CallView>) -> bool {
    &&& at.len() == sites.len()
    &&& forall|k: int|
        0 <= k < at.len() ==> from <= (#[trigger] at[k]).0 && is_called(t, at[k].0, at[k].1) && is_site(
            bytes,
            t,
            at[k].0,
            at[k].1,
            sites[k],
        )
    &&& forall|k: int, l: int| 0 <= k < l < at.len() ==> (#[trigger] at[k]).0 < (#[trigger] at[l]).0
    &&& forall|i: int, end: int| from <= i && #[trigger] is_called(t, i, end) ==> at.contains((i, end))
}

proof fn lemma_calls(bytes: Seq<u8>, t: Seq<TokenView>, i: int) -> (at: Seq<(int, int)>)
    requires
        0 <= i,
    ensures
        are_the_calls(bytes, t, i, at, grammar::call_sites(bytes, t, i)),
    decreases t.len() - i,
{
    let sites = grammar::call_sites(bytes, t, i);
    if i >= t.len() {
        Seq::empty()
    } else {
        if t[i].kind == TokenKindTag::Name {
            lemma_path(bytes, t, i);
        }
        let end = grammar::chain_end(t, i + 1);
        if t[i].kind == TokenKindTag::Name && is_called(t, i, end) {
            let rest = lemma_calls(bytes, t, end + 1);
            let tail = grammar::call_sites(bytes, t, end + 1);
            let at = seq![(i, end)] + rest;
            assert(sites.skip(1) =~= tail);
            assert forall|k: int| 0 <= k < at.len() implies i <= (#[trigger] at[k]).0 && is_called(
                t,
                at[k].0,
                at[k].1,
            ) && is_site(bytes, t, at[k].0, at[k].1, sites[k]) by {
                if k > 0 {
                    assert(at[k] == rest[k - 1]);
                    assert(sites[k] == tail[k - 1]);
                }
            }
            assert forall|k: int, l: int| 0 <= k < l < at.len() implies (#[trigger] at[k]).0 < (
            #[trigger] at[l]).0 by {
                assert(at[l] == rest[l - 1]);
                if k > 0 {
                    assert(at[k] == rest[k - 1]);
                }
            }
            assert forall|a: int, e: int| i <= a && #[trigger] is_called(t, a, e) implies at.contains(
                (a, e),
            ) by {
                assert(t[a].kind == TokenKindTag::Name);
                if a == i {
                    assert(at[0] == (a, e));
                } else if a < end {
                    lemma_inside(t, i, end, a);
                } else if a > end {
                    assert(rest.contains((a, e)));
                    assert(at[rest.index_of((a, e)) + 1] == (a, e));
                }
            }
            at
        } else {
            let at = lemma_calls(bytes, t, i + 1);
            assert(sites == grammar::call_sites(bytes, t, i + 1));
            assert forall|a: int, e: int| i <= a && #[trigger] is_called(t, a, e) implies at.contains(
                (a, e),
            ) by {
                assert(t[a].kind == TokenKindTag::Name);
            }
            at
        }
    }
}

/// The call sites of a statement are those of its calls, all of them and in their order: each dotted
/// name that a parenthesis follows, whatever stands before it but a dot.
pub proof fn law_every_call_is_a_site(bytes: Seq<u8>, t: Seq<TokenView>) -> (at: Seq<(int, int)>)
    ensures
        are_the_calls(bytes, t, 0, at, grammar::call_sites(bytes, t, 0)),
{
    lemma_calls(bytes, t, 0)
}

/// Whether sites are those of the references of a statement read from token `first` on, all of them,
/// each once, and no others.
pub open spec fn are_the_references(bytes: Seq<u8>, t: Seq<TokenView>, first: int, sites: Seq<CallView>) -> bool {
    &&& sites.no_duplicates()
    &&& holds_references(bytes, t, first, first, sites)
    &&& forall|x: CallView| #[trigger]
        sites.contains(x) ==> exists|i: int, end: int| #[trigger]
            is_referred(t, first, i, end) && is_site(bytes, t, i, end, x)
}

/// Whether sites hold those of the references from token `from` on.
pub open spec fn holds_references(bytes: Seq<u8>, t: Seq<TokenView>, first: int, from: int, sites: Seq<CallView>) -> bool {
    forall|i: int, end: int|
        from <= i && #[trigger] is_referred(t, first, i, end) ==> exists|x: CallView| #[trigger]
            sites.contains(x) && is_site(bytes, t, i, end, x)
}

proof fn lemma_references(bytes: Seq<u8>, t: Seq<TokenView>, i: int, first: int, found: Seq<CallView>)
    requires
        0 <= first <= i,
        found.no_duplicates(),
    ensures
        ({
            let sites = grammar::reference_sites(bytes, t, i, first, found);
            &&& sites.no_duplicates()
            &&& forall|x: CallView| #[trigger] found.contains(x) ==> sites.contains(x)
            &&& holds_references(bytes, t, first, i, sites)
            &&& forall|x: CallView| #[trigger]
                sites.contains(x) ==> found.contains(x) || exists|a: int, e: int| #[trigger]
                    is_referred(t, first, a, e) && is_site(bytes, t, a, e, x)
        }),
    decreases t.len() - i,
{
    let sites = grammar::reference_sites(bytes, t, i, first, found);
    if i < t.len() {
        if grammar::starts_chain(t, i, first) {
            lemma_path(bytes, t, i);
            let end = grammar::chain_end(t, i + 1);
            let (target, _) = grammar::dotted(bytes, t, i)->0;
            let here = grammar::site(bytes, t, i, target, end);
            let skipped = grammar::kind_at(t, end) == Some(TokenKindTag::Lpar) || grammar::kind_at(t, end) == Some(
                TokenKindTag::Equal,
            );
            let all = if skipped || found.contains(here) {
                found
            } else {
                found.push(here)
            };
            let next = if skipped {
                end + 1
            } else {
                end
            };
            assert(is_site(bytes, t, i, end, here));
            assert(all.no_duplicates());
            lemma_references(bytes, t, next, first, all);
            assert(sites == grammar::reference_sites(bytes, t, next, first, all));
            assert forall|x: CallView| #[trigger] found.contains(x) implies sites.contains(x) by {
                if all != found {
                    assert(all[found.index_of(x)] == x);
                }
                assert(all.contains(x));
            }
            if !skipped {
                assert(is_referred(t, first, i, end));
                if all != found {
                    assert(all[found.len() as int] == here);
                }
                assert(all.contains(here));
                assert(sites.contains(here));
            }
            assert forall|a: int, e: int| i <= a && #[trigger] is_referred(t, first, a, e) implies exists|
                x: CallView,
            | #[trigger]
                sites.contains(x) && is_site(bytes, t, a, e, x) by {
                assert(t[a].kind == TokenKindTag::Name);
                if a == i {
                    assert(e == end);
                    assert(sites.contains(here));
                } else if a < end {
                    lemma_inside(t, i, end, a);
                } else if a < next {
                    assert(t[end].kind != TokenKindTag::Name);
                }
            }
            assert forall|x: CallView| #[trigger] sites.contains(x) implies found.contains(x) || exists|
                a: int,
                e: int,
            | #[trigger]
                is_referred(t, first, a, e) && is_site(bytes, t, a, e, x) by {
                if all.contains(x) && !found.contains(x) {
                    let k = all.index_of(x);
                    assert(x == here);
                    assert(is_referred(t, first, i, end));
                }
            }
        } else {
            lemma_references(bytes, t, i + 1, first, found);
            assert forall|a: int, e: int| i <= a && #[trigger] is_referred(t, first, a, e) implies exists|
                x: CallView,
            | #[trigger]
                sites.contains(x) && is_site(bytes, t, a, e, x) by {
                assert(t[a].kind == TokenKindTag::Name);
            }
        }
    }
}

/// The reference sites of a statement are those of its references, all of them, each once: each dotted
/// name that is neither called nor the name of an argument.
pub proof fn law_every_reference_is_a_site(bytes: Seq<u8>, t: Seq<TokenView>, first: int)
    requires
        0 <= first,
    ensures
        are_the_references(bytes, t, first, grammar::reference_sites(bytes, t, first, first, Seq::empty())),
{
    lemma_references(bytes, t, first, first, Seq::empty());
}

/// Behind a name that may be given another one: the place behind that one, where there is one.
pub open spec fn behind_alias(t: Seq<TokenView>, end: int) -> int {
    if end + 1 < t.len() && t[end].kind == TokenKindTag::As && t[end + 1].name is Some {
        end + 2
    } else {
        end
    }
}

/// Whether tokens from `from` on are the modules of an `import`: dotted names, each with another name
/// behind it or not, with a comma between each two and none behind the last.
pub open spec fn lists_modules(t: Seq<TokenView>, from: int, clauses: Seq<(int, int)>) -> bool {
    &&& clauses.len() > 0
    &&& clauses[0].0 == from
    &&& forall|k: int| 0 <= k < clauses.len() ==> spells_path(t, (#[trigger] clauses[k]).0, clauses[k].1)
    &&& forall|k: int|
        0 <= k < clauses.len() - 1 ==> {
            let next = behind_alias(t, (#[trigger] clauses[k]).1);
            next < t.len() && t[next].kind == TokenKindTag::Comma && clauses[k + 1].0 == next + 1
        }
    &&& ({
        let next = behind_alias(t, clauses.last().1);
        next >= t.len() || t[next].kind != TokenKindTag::Comma
    })
}

/// The name that an imported module gets: the one given to it, else its own last one.
pub open spec fn import_name(bytes: Seq<u8>, t: Seq<TokenView>, clause: (int, int)) -> Text {
    if behind_alias(t, clause.1) != clause.1 {
        t[clause.1 + 1].name->0
    } else {
        spelled(bytes, t[clause.1 - 1])
    }
}

/// The module that is imported.
pub open spec fn import_module(bytes: Seq<u8>, t: Seq<TokenView>, clause: (int, int)) -> Text {
    text::joined(path_names(bytes, t, clause.0, clause.1), seq!['.'])
}

proof fn lemma_last_name(bytes: Seq<u8>, t: Seq<TokenView>, i: int, end: int)
    requires
        spells_path(t, i, end),
        !spelled(bytes, t[end - 1]).contains('.'),
    ensures
        text::after_last(text::joined(path_names(bytes, t, i, end), seq!['.']), '.') == spelled(bytes, t[end - 1]),
{
    let names = path_names(bytes, t, i, end);
    let s = text::joined(names, seq!['.']);
    let last = spelled(bytes, t[end - 1]);
    assert(i + 2 * (names.len() - 1) == end - 1);
    assert(names.last() == last);
    text::lemma_last_position(s, '.');
    let at = text::last_position(s, '.');
    let start = s.len() - last.len();
    assert forall|k: int| start <= k < s.len() implies s[k] != '.' by {
        assert(s[k] == last[k - start]);
        assert(last.contains(last[k - start]));
    }
    if names.len() > 1 {
        assert(s[start - 1] == '.');
    }
    assert(text::after_last(s, '.') =~= last);
}

/// Whether names are bound to what belongs to them, the last one where a name comes twice, and all other
/// bindings stay.
pub open spec fn binds(names: Seq<Text>, values: Seq<BindingView>, before: Map<Text, BindingView>, after: Map<Text, BindingView>) -> bool {
    &&& forall|k: int| 0 <= k < names.len() && is_last_of(names, k) ==> #[trigger] is_bound(after, names[k], values[k])
    &&& forall|x: Text| !names.contains(x) ==> #[trigger] binds_alike(before, after, x)
}

/// Whether a name does not come again.
pub open spec fn is_last_of(names: Seq<Text>, k: int) -> bool {
    forall|l: int| k < l < names.len() ==> #[trigger] names[l] != names[k]
}

/// Whether a name is bound to something.
pub open spec fn is_bound(imports: Map<Text, BindingView>, name: Text, value: BindingView) -> bool {
    imports.contains_key(name) && imports[name] == value
}

/// Whether a name is bound to the same thing before and after, or not bound at all.
pub open spec fn binds_alike(before: Map<Text, BindingView>, after: Map<Text, BindingView>, name: Text) -> bool {
    &&& after.contains_key(name) <==> before.contains_key(name)
    &&& after.contains_key(name) ==> after[name] == before[name]
}

/// The bindings, with more of them put in one after the other.
spec fn inserted(imports: Map<Text, BindingView>, names: Seq<Text>, values: Seq<BindingView>) -> Map<Text, BindingView>
    decreases names.len(),
{
    if names.len() == 0 {
        imports
    } else {
        inserted(imports, names.drop_last(), values.drop_last()).insert(names.last(), values.last())
    }
}

proof fn lemma_inserted_first(imports: Map<Text, BindingView>, names: Seq<Text>, values: Seq<BindingView>)
    requires
        names.len() > 0,
        names.len() == values.len(),
    ensures
        inserted(imports, names, values) == inserted(
            imports.insert(names[0], values[0]),
            names.drop_first(),
            values.drop_first(),
        ),
    decreases names.len(),
{
    reveal_with_fuel(inserted, 2);
    if names.len() > 1 {
        lemma_inserted_first(imports, names.drop_last(), values.drop_last());
        assert(names.drop_first().drop_last() =~= names.drop_last().drop_first());
        assert(values.drop_first().drop_last() =~= values.drop_last().drop_first());
    }
}

proof fn lemma_inserted(imports: Map<Text, BindingView>, names: Seq<Text>, values: Seq<BindingView>)
    requires
        names.len() == values.len(),
    ensures
        binds(names, values, imports, inserted(imports, names, values)),
    decreases names.len(),
{
    let after = inserted(imports, names, values);
    if names.len() > 0 {
        let front = names.drop_last();
        let before = inserted(imports, front, values.drop_last());
        lemma_inserted(imports, front, values.drop_last());
        assert forall|k: int| 0 <= k < names.len() && is_last_of(names, k) implies #[trigger] is_bound(
            after,
            names[k],
            values[k],
        ) by {
            if k < front.len() {
                assert(names[names.len() - 1] != names[k]);
                assert forall|l: int| k < l < front.len() implies #[trigger] front[l] != front[k] by {
                    assert(names[l] != names[k]);
                }
                assert(is_last_of(front, k));
                assert(is_bound(before, front[k], values.drop_last()[k]));
            }
        }
        assert forall|x: Text| !names.contains(x) implies #[trigger] binds_alike(imports, after, x) by {
            assert(names[names.len() - 1] != x);
            if front.contains(x) {
                assert(names[front.index_of(x)] == x);
            }
            assert(binds_alike(imports, before, x));
        }
    }
}

/// The names that the modules of an `import` get.
pub open spec fn import_names(bytes: Seq<u8>, t: Seq<TokenView>, clauses: Seq<(int, int)>) -> Seq<Text> {
    Seq::new(clauses.len(), |k: int| import_name(bytes, t, clauses[k]))
}

/// The modules of an `import`.
pub open spec fn import_modules(bytes: Seq<u8>, t: Seq<TokenView>, clauses: Seq<(int, int)>) -> Seq<BindingView> {
    Seq::new(clauses.len(), |k: int| BindingView::Module { module: import_module(bytes, t, clauses[k]) })
}

proof fn lemma_import_step(bytes: Seq<u8>, t: Seq<TokenView>, clause: (int, int), imports: Map<Text, BindingView>)
    requires
        spells_path(t, clause.0, clause.1),
        !spelled(bytes, t[clause.1 - 1]).contains('.'),
    ensures
        ({
            let bound = imports.insert(
                import_name(bytes, t, clause),
                BindingView::Module { module: import_module(bytes, t, clause) },
            );
            let next = behind_alias(t, clause.1);
            grammar::after_import(bytes, t, clause.0, imports) == (if next < t.len() && t[next].kind
                == TokenKindTag::Comma {
                grammar::after_import(bytes, t, next + 1, bound)
            } else {
                bound
            })
        }),
{
    assert(t[clause.0].kind == TokenKindTag::Name);
    lemma_path(bytes, t, clause.0);
    lemma_last_name(bytes, t, clause.0, clause.1);
}

proof fn lemma_imports(bytes: Seq<u8>, t: Seq<TokenView>, from: int, clauses: Seq<(int, int)>, imports: Map<Text, BindingView>)
    requires
        lists_modules(t, from, clauses),
        forall|k: int| 0 <= k < clauses.len() ==> !spelled(bytes, t[(#[trigger] clauses[k]).1 - 1]).contains('.'),
    ensures
        grammar::after_import(bytes, t, from, imports) == inserted(
            imports,
            import_names(bytes, t, clauses),
            import_modules(bytes, t, clauses),
        ),
    decreases clauses.len(),
{
    let names = import_names(bytes, t, clauses);
    let values = import_modules(bytes, t, clauses);
    let bound = imports.insert(names[0], values[0]);
    let next = behind_alias(t, clauses[0].1);
    lemma_import_step(bytes, t, clauses[0], imports);
    lemma_inserted_first(imports, names, values);
    if clauses.len() == 1 {
        assert(names.drop_first() =~= Seq::empty());
        assert(inserted(bound, names.drop_first(), values.drop_first()) == bound);
    } else {
        let rest = clauses.drop_first();
        assert(t[next].kind == TokenKindTag::Comma && clauses[1].0 == next + 1);
        assert forall|k: int| 0 <= k < rest.len() implies spells_path(t, (#[trigger] rest[k]).0, rest[k].1)
            && !spelled(bytes, t[rest[k].1 - 1]).contains('.') by {
            assert(rest[k] == clauses[k + 1]);
        }
        assert forall|k: int| 0 <= k < rest.len() - 1 implies ({
            let next = behind_alias(t, (#[trigger] rest[k]).1);
            next < t.len() && t[next].kind == TokenKindTag::Comma && rest[k + 1].0 == next + 1
        }) by {
            assert(rest[k] == clauses[k + 1] && rest[k + 1] == clauses[k + 2]);
        }
        assert(rest.last() == clauses.last());
        lemma_imports(bytes, t, next + 1, rest, bound);
        assert(names.drop_first() =~= import_names(bytes, t, rest));
        assert(values.drop_first() =~= import_modules(bytes, t, rest));
    }
}

/// An `import` statement binds each module that it lists, under the name given to it or else under its
/// last one, and changes no other binding.
pub proof fn law_imports_bind_their_modules(bytes: Seq<u8>, t: Seq<TokenView>, from: int, clauses: Seq<(int, int)>, imports: Map<Text, BindingView>)
    requires
        lists_modules(t, from, clauses),
        forall|k: int| 0 <= k < clauses.len() ==> !spelled(bytes, t[(#[trigger] clauses[k]).1 - 1]).contains('.'),
    ensures
        binds(
            import_names(bytes, t, clauses),
            import_modules(bytes, t, clauses),
            imports,
            grammar::after_import(bytes, t, from, imports),
        ),
{
    lemma_imports(bytes, t, from, clauses, imports);
    lemma_inserted(imports, import_names(bytes, t, clauses), import_modules(bytes, t, clauses));
}

/// Whether tokens from `from` on are the names of a `from` import: names, each with another one behind
/// it or not, with a comma between each two and none behind the last.
pub open spec fn lists_names(bytes: Seq<u8>, t: Seq<TokenView>, from: int, names: Seq<int>) -> bool {
    &&& names.len() > 0
    &&& names[0] == from
    &&& forall|k: int|
        0 <= k < names.len() ==> 0 <= #[trigger] names[k] < t.len() && t[names[k]].kind == TokenKindTag::Name
            && t[names[k]].name is Some && spelled(bytes, t[names[k]]) != "*"@
    &&& forall|k: int|
        0 <= k < names.len() - 1 ==> {
            let next = behind_alias(t, #[trigger] names[k] + 1);
            next < t.len() && t[next].kind == TokenKindTag::Comma && names[k + 1] == next + 1
        }
    &&& ({
        let next = behind_alias(t, names.last() + 1);
        next >= t.len() || t[next].kind != TokenKindTag::Comma
    })
}

/// The name that an imported name gets: the one given to it, else its own.
pub open spec fn name_given(t: Seq<TokenView>, i: int) -> Text {
    if behind_alias(t, i + 1) != i + 1 {
        t[i + 2].name->0
    } else {
        t[i].name->0
    }
}

/// What an imported name is bound to: the name in the module, or, where `from` names nothing but dots,
/// the module of that name in the package.
pub open spec fn bound_from(module: Text, only_dots: bool, name: Text) -> BindingView {
    if only_dots {
        BindingView::Module { module: module + seq!['.'] + name }
    } else {
        BindingView::ImportedName { module, name }
    }
}

/// The names that imported names get.
pub open spec fn names_given(t: Seq<TokenView>, names: Seq<int>) -> Seq<Text> {
    Seq::new(names.len(), |k: int| name_given(t, names[k]))
}

/// What imported names are bound to.
pub open spec fn all_bound_from(t: Seq<TokenView>, names: Seq<int>, module: Text, only_dots: bool) -> Seq<BindingView> {
    Seq::new(names.len(), |k: int| bound_from(module, only_dots, t[names[k]].name->0))
}

proof fn lemma_from_names(bytes: Seq<u8>, t: Seq<TokenView>, from: int, names: Seq<int>, resolved: Text, part: Text, imports: Map<Text, BindingView>, stars: Seq<Text>)
    requires
        lists_names(bytes, t, from, names),
    ensures
        grammar::after_from(bytes, t, from, resolved, part, imports, stars) == (
            inserted(imports, names_given(t, names), all_bound_from(t, names, resolved, part.len() == 0)),
            stars,
        ),
    decreases names.len(),
{
    let keys = names_given(t, names);
    let values = all_bound_from(t, names, resolved, part.len() == 0);
    let bound = imports.insert(keys[0], values[0]);
    let next = behind_alias(t, from + 1);
    reveal_strlit(".");
    assert("."@ =~= seq!['.']);
    assert(names[0] == from);
    lemma_inserted_first(imports, keys, values);
    if names.len() == 1 {
        assert(keys.drop_first() =~= Seq::empty());
        assert(inserted(bound, keys.drop_first(), values.drop_first()) == bound);
    } else {
        let rest = names.drop_first();
        assert(t[next].kind == TokenKindTag::Comma && names[1] == next + 1);
        assert forall|k: int| 0 <= k < rest.len() implies 0 <= #[trigger] rest[k] < t.len() && t[rest[k]].kind
            == TokenKindTag::Name && t[rest[k]].name is Some && spelled(bytes, t[rest[k]]) != "*"@ by {
            assert(rest[k] == names[k + 1]);
        }
        assert forall|k: int| 0 <= k < rest.len() - 1 implies ({
            let next = behind_alias(t, #[trigger] rest[k] + 1);
            next < t.len() && t[next].kind == TokenKindTag::Comma && rest[k + 1] == next + 1
        }) by {
            assert(rest[k] == names[k + 1] && rest[k + 1] == names[k + 2]);
        }
        assert(rest.last() == names.last());
        lemma_from_names(bytes, t, next + 1, rest, resolved, part, bound, stars);
        assert(keys.drop_first() =~= names_given(t, rest));
        assert(values.drop_first() =~= all_bound_from(t, rest, resolved, part.len() == 0));
    }
}

/// A `from` import binds each name that it lists to that name of the module, under the name given to it
/// or else under its own, and changes no other binding.
pub proof fn law_from_imports_bind_their_names(bytes: Seq<u8>, t: Seq<TokenView>, from: int, names: Seq<int>, resolved: Text, part: Text, imports: Map<Text, BindingView>, stars: Seq<Text>)
    requires
        lists_names(bytes, t, from, names),
    ensures
        binds(
            names_given(t, names),
            all_bound_from(t, names, resolved, part.len() == 0),
            imports,
            grammar::after_from(bytes, t, from, resolved, part, imports, stars).0,
        ),
        grammar::after_from(bytes, t, from, resolved, part, imports, stars).1 == stars,
{
    lemma_from_names(bytes, t, from, names, resolved, part, imports, stars);
    lemma_inserted(imports, names_given(t, names), all_bound_from(t, names, resolved, part.len() == 0));
}

/// A star in the place of the names imports all names of the module, and binds none.
pub proof fn law_stars_import_whole_modules(bytes: Seq<u8>, t: Seq<TokenView>, from: int, resolved: Text, part: Text, imports: Map<Text, BindingView>, stars: Seq<Text>)
    requires
        0 <= from < t.len(),
        t[from].kind != TokenKindTag::Rpar,
        spelled(bytes, t[from]) == "*"@,
    ensures
        grammar::after_from(bytes, t, from, resolved, part, imports, stars) == (imports, stars.push(resolved)),
{
}

/// The module that `from` names: without dots the one that is written; with dots the one that is
/// written, seen from the package, one package further up for each dot behind the first.
pub proof fn law_dots_lead_upwards(package: Seq<Text>, level: int, part: Seq<Text>)
    requires
        following::are_names(package),
        following::are_names(part),
        0 <= level <= package.len() + 1,
    ensures
        grammar::from_module(following::dotted(package), level, following::dotted(part)) == (if level == 0 {
            following::dotted(part)
        } else {
            following::dotted(package.take(package.len() - (level - 1)) + part)
        }),
{
    reveal_strlit(".");
    assert("."@ =~= seq!['.']);
    if package.len() > 0 {
        following::lemma_dotted(package);
    } else {
        assert(following::dotted(package) =~= Seq::empty());
    }
    if part.len() > 0 {
        following::lemma_dotted(part);
    } else {
        assert(following::dotted(part) =~= Seq::empty());
        assert(package.take(package.len() - (level - 1)) + part =~= package.take(package.len() - (level - 1)));
    }
}

/// Whether a statement defines a function whose name is token `k`.
pub open spec fn defines_at(t: Seq<TokenView>, k: int) -> bool {
    ||| k == 1 && t.len() > 1 && t[0].kind == TokenKindTag::Def && t[1].kind == TokenKindTag::Name
    ||| k == 2 && t.len() > 2 && t[0].kind == TokenKindTag::Async && t[1].kind == TokenKindTag::Def && t[2].kind
        == TokenKindTag::Name
}

/// Whether a statement stands in the body of function `f`: that is the innermost function around it.
pub open spec fn stands_in_function(st: StateView, f: int) -> bool {
    exists|n: int|
        0 <= n < st.scopes.len() && (#[trigger] st.scopes[n]).owner == OwnerView::Function(f) && forall|m: int|
            n < m < st.scopes.len() ==> (#[trigger] st.scopes[m]).owner is Class
}

/// Whether a statement stands in the body of no function.
pub open spec fn stands_outside_functions(st: StateView) -> bool {
    forall|m: int| 0 <= m < st.scopes.len() ==> (#[trigger] st.scopes[m]).owner is Class
}

/// The innermost scope of a function, where there is one, and that of a class where there is none.
pub proof fn lemma_function_scope(scopes: Seq<FrameView>)
    ensures
        forall|n: int|
            0 <= n < scopes.len() && (#[trigger] scopes[n]).owner is Function && (forall|m: int|
                n < m < scopes.len() ==> (#[trigger] scopes[m]).owner is Class) ==> grammar::function_scope(scopes)
                == Some(scopes[n]),
        (forall|m: int| 0 <= m < scopes.len() ==> (#[trigger] scopes[m]).owner is Class) ==> grammar::function_scope(
            scopes,
        ) is None && (scopes.len() > 0 ==> grammar::class_scope(scopes) == Some(scopes.last())),
    decreases scopes.len(),
{
    if scopes.len() > 0 {
        let front = scopes.drop_last();
        lemma_function_scope(front);
        assert forall|n: int|
            0 <= n < scopes.len() && (#[trigger] scopes[n]).owner is Function && (forall|m: int|
                n < m < scopes.len() ==> (#[trigger] scopes[m]).owner is Class) implies grammar::function_scope(scopes)
            == Some(scopes[n]) by {
            if n < front.len() {
                assert(scopes[scopes.len() - 1].owner is Class);
                assert(front[n] == scopes[n]);
                assert forall|m: int| n < m < front.len() implies (#[trigger] front[m]).owner is Class by {
                    assert(front[m] == scopes[m]);
                }
            }
        }
        if forall|m: int| 0 <= m < scopes.len() ==> (#[trigger] scopes[m]).owner is Class {
            assert(scopes[scopes.len() - 1].owner is Class);
            assert forall|m: int| 0 <= m < front.len() implies (#[trigger] front[m]).owner is Class by {
                assert(front[m] == scopes[m]);
            }
        }
    }
}

/// A statement in the body of a function that defines no function adds its calls to those of that
/// function, and changes nothing else.
pub proof fn law_calls_belong_to_the_innermost_function(ctx: Context, st: StateView, f: int)
    requires
        st.statement.len() > 0,
        stands_in_function(st, f),
        0 <= f < st.functions.len(),
        !defines_at(st.statement, 1) && !defines_at(st.statement, 2),
    ensures
        ({
            let after = grammar::after_statement(ctx, st);
            &&& after.functions.len() == st.functions.len()
            &&& after.functions[f].calls == st.functions[f].calls + grammar::call_sites(ctx.bytes, st.statement, 0)
            &&& after.functions[f].name == st.functions[f].name && after.functions[f].line == st.functions[f].line
                && after.functions[f].col == st.functions[f].col && after.functions[f].kind == st.functions[f].kind
                && after.functions[f].class_name == st.functions[f].class_name
            &&& forall|k: int| 0 <= k < st.functions.len() && k != f ==> after.functions[k] == #[trigger] st.functions[k]
            &&& after.classes == st.classes && after.imports == st.imports && after.star_imports == st.star_imports
            &&& after.scopes == st.scopes && after.pending == st.pending && after.indent == st.indent
        }),
{
    let n = choose|n: int|
        0 <= n < st.scopes.len() && (#[trigger] st.scopes[n]).owner == OwnerView::Function(f) && forall|m: int|
            n < m < st.scopes.len() ==> (#[trigger] st.scopes[m]).owner is Class;
    lemma_function_scope(st.scopes);
    assert(grammar::function_scope(st.scopes) == Some(st.scopes[n]));
}

/// The definition of a function adds the function, with its name and where that stands, and without
/// calls. It is a method exactly where it stands in the body of a class and not deeper: then the class
/// gets it as a method too. What follows deeper is its body.
pub proof fn law_definitions_add_functions(ctx: Context, st: StateView, k: int)
    requires
        defines_at(st.statement, k),
        stands_outside_functions(st) ==> forall|m: int|
            0 <= m < st.scopes.len() ==> 0 <= (#[trigger] st.scopes[m]).owner->Class_0 < st.classes.len(),
    ensures
        ({
            let after = grammar::after_statement(ctx, st);
            let token = st.statement[k];
            let n = st.functions.len() as int;
            let owner = st.scopes.last().owner->Class_0;
            let added = after.functions[n];
            &&& after.functions.len() == n + 1
            &&& forall|m: int| 0 <= m < n ==> after.functions[m] == #[trigger] st.functions[m]
            &&& added.name == spelled(ctx.bytes, token) && added.calls.len() == 0
            &&& added.line == lines::line_number(ctx.bytes, token.start as int) as usize
            &&& added.col == lines::column(ctx.bytes, token.start as int) as usize
            &&& after.pending == Some(
                FrameView { body_indent: st.indent + 1, owner: OwnerView::Function(n) },
            )
            &&& after.imports == st.imports && after.star_imports == st.star_imports && after.scopes == st.scopes
                && after.indent == st.indent
            &&& after.classes.len() == st.classes.len()
            &&& if stands_outside_functions(st) && st.scopes.len() > 0 && st.scopes.last().body_indent == st.indent {
                &&& added.class_name == Some(st.classes[owner].name)
                &&& added.kind == 12
                &&& after.classes[owner].methods == st.classes[owner].methods.push(
                    MethodView { name: added.name, line: added.line, col: added.col },
                )
                &&& after.classes[owner].name == st.classes[owner].name && after.classes[owner].bases
                    == st.classes[owner].bases && after.classes[owner].fields == st.classes[owner].fields
                &&& forall|m: int| 0 <= m < st.classes.len() && m != owner ==> after.classes[m] == #[trigger] st.classes[m]
            } else {
                added.class_name is None && added.kind == 6 && after.classes == st.classes
            }
        }),
{
    lemma_function_scope(st.scopes);
    lemma_some_function(st.scopes);
    if stands_outside_functions(st) && st.scopes.len() > 0 {
        assert(st.scopes[st.scopes.len() - 1].owner is Class);
    }
}

proof fn lemma_some_function(scopes: Seq<FrameView>)
    ensures
        grammar::function_scope(scopes) is None ==> forall|m: int|
            0 <= m < scopes.len() ==> (#[trigger] scopes[m]).owner is Class,
    decreases scopes.len(),
{
    if scopes.len() > 0 {
        let front = scopes.drop_last();
        lemma_some_function(front);
        if grammar::function_scope(scopes) is None {
            assert forall|m: int| 0 <= m < scopes.len() implies (#[trigger] scopes[m]).owner is Class by {
                if m < front.len() {
                    assert(front[m] == scopes[m]);
                }
            }
        }
    }
}

/// A class statement outside functions adds the class, with its name, where that stands and its bases,
/// and without members. What follows deeper is its body.
pub proof fn law_class_statements_add_classes(ctx: Context, st: StateView)
    requires
        st.statement.len() > 1,
        st.statement[0].kind == TokenKindTag::Class,
        st.statement[1].kind == TokenKindTag::Name,
        stands_outside_functions(st),
    ensures
        ({
            let after = grammar::after_statement(ctx, st);
            let token = st.statement[1];
            let n = st.classes.len() as int;
            let added = after.classes[n];
            &&& after.classes.len() == n + 1
            &&& forall|m: int| 0 <= m < n ==> after.classes[m] == #[trigger] st.classes[m]
            &&& added.name == spelled(ctx.bytes, token)
            &&& added.line == lines::line_number(ctx.bytes, token.start as int) as usize
            &&& added.col == lines::column(ctx.bytes, token.start as int) as usize
            &&& added.bases == grammar::class_bases(ctx.bytes, st.statement, 2)
            &&& added.methods.len() == 0 && added.fields.len() == 0
            &&& after.pending == Some(FrameView { body_indent: st.indent + 1, owner: OwnerView::Class(n) })
            &&& after.functions == st.functions && after.imports == st.imports && after.star_imports
                == st.star_imports && after.scopes == st.scopes && after.indent == st.indent
        }),
{
    lemma_function_scope(st.scopes);
}

/// An `import` statement outside classes and functions binds each module that it lists, and changes
/// nothing else.
pub proof fn law_top_level_imports_bind_modules(ctx: Context, st: StateView, clauses: Seq<(int, int)>)
    requires
        st.scopes.len() == 0,
        st.statement.len() > 0,
        st.statement[0].kind == TokenKindTag::Import,
        lists_modules(st.statement, 1, clauses),
        forall|k: int|
            0 <= k < clauses.len() ==> !spelled(ctx.bytes, st.statement[(#[trigger] clauses[k]).1 - 1]).contains('.'),
    ensures
        ({
            let after = grammar::after_statement(ctx, st);
            &&& binds(
                import_names(ctx.bytes, st.statement, clauses),
                import_modules(ctx.bytes, st.statement, clauses),
                st.imports,
                after.imports,
            )
            &&& after.star_imports == st.star_imports && after.classes == st.classes && after.functions
                == st.functions && after.scopes == st.scopes && after.pending == st.pending && after.indent
                == st.indent
        }),
{
    law_imports_bind_their_modules(ctx.bytes, st.statement, 1, clauses, st.imports);
}

/// Whether a statement starts like a `from` import: dots up to token `dots`, a dotted name up to token
/// `end` or none, and the word `import`; and what is imported starts at token `first`, behind a
/// parenthesis where there is one.
pub open spec fn starts_from(t: Seq<TokenView>, dots: int, end: int, first: int) -> bool {
    &&& 1 <= dots <= end < t.len()
    &&& t[0].kind == TokenKindTag::From
    &&& forall|k: int| 1 <= k < dots ==> (#[trigger] t[k]).kind == TokenKindTag::Dot
    &&& t[dots].kind != TokenKindTag::Dot
    &&& if dots == end {
        t[dots].kind != TokenKindTag::Name
    } else {
        spells_path(t, dots, end)
    }
    &&& t[end].kind == TokenKindTag::Import
    &&& if end + 1 < t.len() && t[end + 1].kind == TokenKindTag::Lpar {
        first == end + 2
    } else {
        first == end + 1
    }
}

/// The name that stands behind the dots of a `from` import.
pub open spec fn from_part(bytes: Seq<u8>, t: Seq<TokenView>, dots: int, end: int) -> Text {
    if dots == end {
        Seq::empty()
    } else {
        text::joined(path_names(bytes, t, dots, end), seq!['.'])
    }
}

proof fn lemma_dots(t: Seq<TokenView>, i: int, dots: int)
    requires
        0 <= i <= dots < t.len(),
        forall|k: int| i <= k < dots ==> (#[trigger] t[k]).kind == TokenKindTag::Dot,
        t[dots].kind != TokenKindTag::Dot,
    ensures
        grammar::dots_end(t, i) == dots,
    decreases dots - i,
{
    if i < dots {
        lemma_dots(t, i + 1, dots);
    }
}

proof fn lemma_from(ctx: Context, t: Seq<TokenView>, dots: int, end: int, first: int, imports: Map<Text, BindingView>, stars: Seq<Text>)
    requires
        starts_from(t, dots, end, first),
    ensures
        grammar::from_import(ctx, t, imports, stars) == grammar::after_from(
            ctx.bytes,
            t,
            first,
            grammar::from_module(ctx.package_name, dots - 1, from_part(ctx.bytes, t, dots, end)),
            from_part(ctx.bytes, t, dots, end),
            imports,
            stars,
        ),
{
    lemma_dots(t, 1, dots);
    if dots < end {
        assert(t[dots].kind == TokenKindTag::Name);
        lemma_path(ctx.bytes, t, dots);
    }
}

/// A `from` import outside classes and functions binds each name that it lists to that name of the
/// module that it names, and changes nothing else.
pub proof fn law_top_level_from_imports_bind_names(ctx: Context, st: StateView, dots: int, end: int, first: int, names: Seq<int>)
    requires
        st.scopes.len() == 0,
        starts_from(st.statement, dots, end, first),
        lists_names(ctx.bytes, st.statement, first, names),
    ensures
        ({
            let after = grammar::after_statement(ctx, st);
            let part = from_part(ctx.bytes, st.statement, dots, end);
            &&& binds(
                names_given(st.statement, names),
                all_bound_from(
                    st.statement,
                    names,
                    grammar::from_module(ctx.package_name, dots - 1, part),
                    part.len() == 0,
                ),
                st.imports,
                after.imports,
            )
            &&& after.star_imports == st.star_imports && after.classes == st.classes && after.functions
                == st.functions && after.scopes == st.scopes && after.pending == st.pending && after.indent
                == st.indent
        }),
{
    let part = from_part(ctx.bytes, st.statement, dots, end);
    lemma_from(ctx, st.statement, dots, end, first, st.imports, st.star_imports);
    law_from_imports_bind_their_names(
        ctx.bytes,
        st.statement,
        first,
        names,
        grammar::from_module(ctx.package_name, dots - 1, part),
        part,
        st.imports,
        st.star_imports,
    );
}

/// A `from` import of a star outside classes and functions notes the module that it names, and changes
/// nothing else.
pub proof fn law_top_level_stars_note_modules(ctx: Context, st: StateView, dots: int, end: int, first: int)
    requires
        st.scopes.len() == 0,
        starts_from(st.statement, dots, end, first),
        first < st.statement.len(),
        st.statement[first].kind != TokenKindTag::Rpar,
        spelled(ctx.bytes, st.statement[first]) == "*"@,
    ensures
        ({
            let after = grammar::after_statement(ctx, st);
            let part = from_part(ctx.bytes, st.statement, dots, end);
            &&& after.star_imports == st.star_imports.push(grammar::from_module(ctx.package_name, dots - 1, part))
            &&& after.imports == st.imports && after.classes == st.classes && after.functions == st.functions
                && after.scopes == st.scopes && after.pending == st.pending && after.indent == st.indent
        }),
{
    lemma_from(ctx, st.statement, dots, end, first, st.imports, st.star_imports);
}

/// `name = other` outside classes and functions, where `other` is bound by an import, binds the name to
/// the same thing; where `other` is a class of the module, to that class.
pub proof fn law_aliases_are_bound_alike(ctx: Context, st: StateView)
    requires
        st.scopes.len() == 0,
        st.statement.len() == 3,
        st.statement[0].kind == TokenKindTag::Name && st.statement[0].name is Some,
        st.statement[1].kind == TokenKindTag::Equal,
        st.statement[2].kind == TokenKindTag::Name,
        !spelled(ctx.bytes, st.statement[2]).contains('.'),
    ensures
        ({
            let after = grammar::after_statement(ctx, st);
            let name = st.statement[0].name->0;
            let other = spelled(ctx.bytes, st.statement[2]);
            &&& st.imports.contains_key(other) ==> after.imports == st.imports.insert(name, st.imports[other])
            &&& !st.imports.contains_key(other) && (exists|i: int|
                0 <= i < st.classes.len() && (#[trigger] st.classes[i]).name == other) ==> after.imports
                == st.imports.insert(
                name,
                BindingView::ImportedName { module: ctx.module_name, name: other },
            )
            &&& after.classes == st.classes && after.star_imports == st.star_imports
        }),
{
    let t = st.statement;
    let other = spelled(ctx.bytes, t[2]);
    lemma_path(ctx.bytes, t, 2);
    assert(grammar::chain_end(t, 3) == 3);
    assert(path_names(ctx.bytes, t, 2, 3) =~= seq![other]);
    assert(text::joined(seq![other], seq!['.']) == other);
    assert forall|i: int, k: int| 0 <= i < seq![other].len() && 0 <= k < seq![other][i].len() implies !text::breaks(
        #[trigger] seq![other][i][k],
        Some('.'),
    ) by {
        assert(other.contains(other[k]));
    }
    text::law_split_undoes_join(seq![other], '.', Some('.'));
}

/// What is indented behind the head of a class or function is its body; other indentation opens no body.
pub proof fn law_indentation_opens_bodies(ctx: Context, st: StateView, token: TokenView)
    requires
        token.kind == TokenKindTag::Indent,
    ensures
        ({
            let after = grammar::after_token(ctx, st, token);
            &&& after.indent == st.indent + 1
            &&& after.pending is None
            &&& st.pending matches Some(frame) ==> after.scopes == st.scopes.push(frame)
            &&& st.pending is None ==> after.scopes == st.scopes
            &&& after.statement == st.statement && after.imports == st.imports && after.star_imports
                == st.star_imports && after.classes == st.classes && after.functions == st.functions
        }),
{
}

proof fn lemma_open_scopes(scopes: Seq<FrameView>, indent: int) -> (n: int)
    ensures
        0 <= n <= scopes.len(),
        grammar::open_scopes(scopes, indent) == scopes.take(n),
        n > 0 ==> scopes[n - 1].body_indent <= indent,
        forall|k: int| n <= k < scopes.len() ==> (#[trigger] scopes[k]).body_indent > indent,
    decreases scopes.len(),
{
    if scopes.len() > 0 && scopes.last().body_indent > indent {
        let front = scopes.drop_last();
        let n = lemma_open_scopes(front, indent);
        assert(scopes.take(n) =~= front.take(n));
        assert forall|k: int| n <= k < scopes.len() implies (#[trigger] scopes[k]).body_indent > indent by {
            if k < front.len() {
                assert(front[k] == scopes[k]);
            }
        }
        n
    } else {
        assert(scopes.take(scopes.len() as int) =~= scopes);
        scopes.len() as int
    }
}

/// Where the indentation ends, so do the bodies that are indented deeper, the innermost ones first, up
/// to the first one that is not.
pub proof fn law_dedentation_closes_bodies(ctx: Context, st: StateView, token: TokenView) -> (n: int)
    requires
        token.kind == TokenKindTag::Dedent,
        st.statement.len() == 0,
        st.indent > 0,
    ensures
        ({
            let after = grammar::after_token(ctx, st, token);
            &&& after.indent == st.indent - 1
            &&& 0 <= n <= st.scopes.len() && after.scopes == st.scopes.take(n)
            &&& n > 0 ==> st.scopes[n - 1].body_indent <= st.indent - 1
            &&& forall|k: int| n <= k < st.scopes.len() ==> (#[trigger] st.scopes[k]).body_indent > st.indent - 1
            &&& after.imports == st.imports && after.star_imports == st.star_imports && after.classes == st.classes
                && after.functions == st.functions
        }),
{
    lemma_open_scopes(st.scopes, st.indent - 1)
}

/// A statement is all the tokens up to the end of its line: they are gathered and then read, once.
pub proof fn law_statements_end_with_their_line(ctx: Context, st: StateView, token: TokenView, line_end: TokenView)
    requires
        token.kind != TokenKindTag::Indent && token.kind != TokenKindTag::Dedent && token.kind
            != TokenKindTag::Newline,
        line_end.kind == TokenKindTag::Newline,
        st.pending is None,
    ensures
        grammar::after_token(ctx, st, token) == (StateView { statement: st.statement.push(token), ..st }),
        grammar::after_token(ctx, grammar::after_token(ctx, st, token), line_end) == (StateView {
            statement: Seq::empty(),
            ..grammar::after_statement(ctx, StateView { statement: st.statement.push(token), ..st })
        }),
{
}

/// An assignment to a name outside classes and functions that gives no known thing another name, but
/// refers to others, adds the name as one that refers to them, and changes nothing else.
pub proof fn law_assignments_refer_to_others(ctx: Context, st: StateView)
    requires
        st.scopes.len() == 0,
        st.statement.len() >= 3,
        st.statement[0].kind == TokenKindTag::Name && st.statement[0].name is Some,
        st.statement[1].kind == TokenKindTag::Equal,
        grammar::alias_binding(ctx, st) is None,
        exists|i: int, end: int| is_referred(st.statement, 2, i, end),
    ensures
        ({
            let after = grammar::after_statement(ctx, st);
            let n = st.functions.len() as int;
            let added = after.functions[n];
            &&& after.functions.len() == n + 1
            &&& forall|m: int| 0 <= m < n ==> after.functions[m] == #[trigger] st.functions[m]
            &&& added.name == st.statement[0].name->0
            &&& added.line == lines::line_number(ctx.bytes, st.statement[0].start as int) as usize
            &&& added.col == lines::column(ctx.bytes, st.statement[0].start as int) as usize
            &&& added.kind == 13 && added.class_name is None
            &&& are_the_references(ctx.bytes, st.statement, 2, added.calls)
            &&& after.imports == st.imports && after.star_imports == st.star_imports && after.classes == st.classes
                && after.scopes == st.scopes && after.pending == st.pending && after.indent == st.indent
        }),
{
    let sites = grammar::reference_sites(ctx.bytes, st.statement, 2, 2, Seq::empty());
    law_every_reference_is_a_site(ctx.bytes, st.statement, 2);
    let (i, end) = choose|i: int, end: int| is_referred(st.statement, 2, i, end);
    let x = choose|x: CallView| #[trigger] sites.contains(x) && is_site(ctx.bytes, st.statement, i, end, x);
    assert(sites.contains(x));
    assert(sites.len() > 0);
}

/// `name = head.p.C` outside classes and functions, where `head` is bound to a module, binds the name to
/// what the last name is in the module that the others lead to.
pub proof fn law_dotted_aliases_lead_into_modules(ctx: Context, st: StateView, middle: Seq<Text>, last: Text)
    requires
        st.scopes.len() == 0,
        st.statement.len() >= 5,
        st.statement[0].kind == TokenKindTag::Name && st.statement[0].name is Some,
        st.statement[1].kind == TokenKindTag::Equal,
        spells_path(st.statement, 2, st.statement.len() as int),
        following::are_names(middle),
        following::is_name(last),
        following::is_name(spelled(ctx.bytes, st.statement[2])),
        path_names(ctx.bytes, st.statement, 2, st.statement.len() as int) == seq![spelled(ctx.bytes, st.statement[2])]
            + middle + seq![last],
        st.imports.contains_key(spelled(ctx.bytes, st.statement[2])),
    ensures
        ({
            let after = grammar::after_statement(ctx, st);
            let bound = following::module_bound(st.imports[spelled(ctx.bytes, st.statement[2])]);
            &&& after.imports == st.imports.insert(
                st.statement[0].name->0,
                BindingView::ImportedName { module: following::dotted(seq![bound] + middle), name: last },
            )
            &&& after.classes == st.classes && after.functions == st.functions && after.star_imports
                == st.star_imports
        }),
{
    let t = st.statement;
    let head = spelled(ctx.bytes, t[2]);
    let parts = seq![head] + middle + seq![last];
    let rest = parts.drop_first();
    let binding = st.imports[head];
    let bound = following::module_bound(binding);
    lemma_path(ctx.bytes, t, 2);
    assert forall|i: int| 0 <= i < parts.len() implies following::is_name(#[trigger] parts[i]) by {
        if 0 < i < parts.len() - 1 {
            assert(parts[i] == middle[i - 1]);
        }
    }
    following::lemma_dotted(parts);
    reveal_strlit(".");
    assert("."@ =~= seq!['.']);
    assert(rest.drop_last() =~= middle);
    assert(rest.last() == last);
    following::lemma_bound(binding);
    if let BindingView::ImportedName { module, name } = binding {
        let tail = seq![name] + rest;
        assert(tail.drop_last() =~= seq![name] + middle);
        following::lemma_joined_front(module, seq![name] + middle);
        assert(seq![module] + (seq![name] + middle) =~= seq![module, name] + middle);
        following::lemma_joined_regrouped(module, name, middle);
    } else if middle.len() > 0 {
        following::lemma_joined_front(bound, middle);
    } else {
        assert(seq![bound] + middle =~= seq![bound]);
        assert(following::dotted(seq![bound]) == bound);
    }
}

/// The tokens of a module are read one after the other: reading some and then the others is reading
/// them all. What stands behind the end of the file is not read.
pub proof fn law_tokens_are_read_in_order(ctx: Context, st: StateView, first: Seq<TokenView>, rest: Seq<TokenView>)
    ensures
        (forall|k: int| 0 <= k < first.len() ==> (#[trigger] first[k]).kind != TokenKindTag::EndOfFile)
            ==> grammar::after_tokens(ctx, st, first + rest) == grammar::after_tokens(
            ctx,
            grammar::after_tokens(ctx, st, first),
            rest,
        ),
        first.len() > 0 && first[0].kind == TokenKindTag::EndOfFile ==> grammar::after_tokens(ctx, st, first + rest)
            == grammar::after_tokens(ctx, st, first),
    decreases first.len(),
{
    let all = first + rest;
    if first.len() == 0 {
        assert(all =~= rest);
    } else if first[0].kind != TokenKindTag::EndOfFile {
        let later = first.drop_first();
        law_tokens_are_read_in_order(ctx, grammar::after_token(ctx, st, first[0]), later, rest);
        assert(all.drop_first() =~= later + rest);
        if forall|k: int| 0 <= k < first.len() ==> (#[trigger] first[k]).kind != TokenKindTag::EndOfFile {
            assert forall|k: int| 0 <= k < later.len() implies (#[trigger] later[k]).kind != TokenKindTag::EndOfFile by {
                assert(later[k] == first[k + 1]);
            }
        }
    }
}

} // verus!
