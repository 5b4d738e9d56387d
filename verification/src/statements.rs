//! Reading single statements: imports, bases, fields, calls, references.
use vstd::prelude::*;

use crate::annotations::annotation_is_required;
use crate::annotations::is_enum_class;
use crate::annotations::normalize_inline_whitespace;
use crate::annotations::normalize_type_head;
use crate::grammar;
use crate::grammar::decode;
use crate::grammar::Depths;
use crate::lines::LineIndex;
use crate::model::CallSite;
use crate::model::FieldInfo;
use crate::model::ImportBinding;
use crate::model::RangePoint;
use crate::model::SourceRange;
use crate::names::NameMap;
use crate::text::cat3;
use crate::text::chars_of;
use crate::text::join_text;
use crate::text::same;
use crate::text::split_text;
use crate::text::tail_after;
use crate::text::Text;
use crate::tokens;
use crate::tokens::TokenKindTag;
use crate::tokens::TokenSpan;

verus! {

/// Whether token `i` is there and of this kind.
pub fn is_kind(t: &Vec<TokenSpan>, i: usize, kind: TokenKindTag) -> (r: bool)
    ensures
        r == (grammar::kind_at(t.deep_view(), i as int) == Some(kind)),
        r ==> i < t@.len() && i < usize::MAX,
{
    i < t.len() && t[i].kind == kind
}

/// The identifier that token `i` is.
pub fn token_name(t: &Vec<TokenSpan>, i: usize) -> (name: Option<String>)
    ensures
        name.deep_view() == grammar::name_at(t.deep_view(), i as int),
        name is Some ==> i < t@.len() && i < usize::MAX,
{
    if i < t.len() {
        t[i].name.clone()
    } else {
        None
    }
}

/// The text that bytes `start..end` hold.
pub fn slice(bytes: &[u8], start: u32, end: u32) -> (text: String)
    ensures
        text@ == grammar::slice(bytes@, start, end),
{
    let from = start as usize;
    let to = end as usize;
    if from <= to && to <= bytes.len() {
        decode(vstd::slice::slice_subrange(bytes, from, to))
    } else {
        String::new()
    }
}

/// The text of token `i`.
fn token_text(bytes: &[u8], t: &Vec<TokenSpan>, i: usize) -> (text: String)
    requires
        i < t@.len(),
    ensures
        text@ == grammar::token_text(bytes@, t.deep_view()[i as int]),
{
    slice(bytes, t[i].start, t[i].end)
}

/// The text from the start of token `a` to the end of token `b`.
pub fn slice_span(bytes: &[u8], t: &Vec<TokenSpan>, a: usize, b: usize) -> (text: String)
    ensures
        text@ == grammar::span_text(bytes@, t.deep_view(), a as int, b as int),
{
    if a < t.len() && b < t.len() {
        slice(bytes, t[a].start, t[b].end)
    } else {
        String::new()
    }
}

/// The position of a byte offset.
pub fn point_at(lines: &mut LineIndex, offset: u32) -> (at: RangePoint)
    requires
        old(lines).wf(),
        offset < u32::MAX,
    ensures
        final(lines).wf(),
        final(lines).bytes == old(lines).bytes,
        at == grammar::point(old(lines).bytes@, offset),
{
    let (line, col) = lines.line_col_at(offset);
    RangePoint { line, col }
}

/// The dotted name that starts at token `start`, and the place behind it.
pub fn parse_dotted_name(bytes: &[u8], t: &Vec<TokenSpan>, start: usize) -> (found: Option<(String, usize)>)
    ensures
        match found {
            Some((name, end)) => grammar::dotted(bytes@, t.deep_view(), start as int) == Some(
                (name@, end as int),
            ) && start < end <= t@.len(),
            None => grammar::dotted(bytes@, t.deep_view(), start as int) is None,
        },
{
    let ghost v = t.deep_view();
    if !is_kind(t, start, TokenKindTag::Name) {
        return None;
    }
    let mut segments: Vec<String> = Vec::new();
    segments.push(token_text(bytes, t, start));
    let mut i: usize = start + 1;
    let ghost end = grammar::chain_end(v, start + 1);
    proof {
        grammar::lemma_chain_end(v, start + 1);
        assert(segments.deep_view() =~= seq![grammar::token_text(bytes@, v[start as int])]);
    }
    while is_kind(t, i, TokenKindTag::Dot) && is_kind(t, i + 1, TokenKindTag::Name)
        invariant
            start < i <= t@.len(),
            v == t.deep_view(),
            end == grammar::chain_end(v, i as int),
            end == grammar::chain_end(v, start + 1),
            grammar::chain_names(bytes@, v, start as int, end) == segments.deep_view()
                + grammar::chain_names(bytes@, v, i + 1, end),
        decreases t@.len() - i,
    {
        let ghost before = segments.deep_view();
        proof {
            grammar::lemma_chain_end(v, i + 2);
        }
        let segment = token_text(bytes, t, i + 1);
        let ghost spelled = segment@;
        segments.push(segment);
        assert(segments.deep_view() =~= before.push(spelled));
        assert(before + (seq![spelled] + grammar::chain_names(bytes@, v, i + 3, end))
            =~= segments.deep_view() + grammar::chain_names(bytes@, v, i + 3, end));
        i = i + 2;
    }
    assert(grammar::chain_names(bytes@, v, i + 1, end) =~= Seq::<Text>::empty());
    assert(segments.deep_view() + Seq::<Text>::empty() =~= segments.deep_view());
    Some((join_text(&segments, "."), i))
}

/// The name behind `as` at token `i`, else the one given; and the place behind it.
fn renamed(t: &Vec<TokenSpan>, i: usize, default: String) -> (r: (String, usize))
    requires
        i <= t@.len(),
    ensures
        ({
            let (name, end) = r;
            &&& grammar::renamed(t.deep_view(), i as int, default@) == (name@, end as int)
            &&& i <= end <= t@.len()
        }),
{
    if is_kind(t, i, TokenKindTag::As) {
        if let Some(name) = token_name(t, i + 1) {
            return (name, i + 2);
        }
    }
    (default, i)
}

/// Gives a name its binding.
fn bind(imports: &mut NameMap<ImportBinding>, name: String, binding: ImportBinding)
    requires
        old(imports).wf(),
    ensures
        final(imports).wf(),
        final(imports).deep_entries() == old(imports).deep_entries().insert(name@, binding.deep_view()),
{
    let ghost before = imports.deep_entries();
    let ghost viewed = binding.deep_view();
    imports.insert(name, binding);
    assert(imports.deep_entries() =~= before.insert(name@, viewed));
}

/// Reads `import`: binds each module under its alias or its last part.
pub fn parse_import_statement(bytes: &[u8], t: &Vec<TokenSpan>, imports: &mut NameMap<ImportBinding>)
    requires
        old(imports).wf(),
    ensures
        final(imports).wf(),
        final(imports).deep_entries() == grammar::after_import(
            bytes@,
            t.deep_view(),
            1,
            old(imports).deep_entries(),
        ),
{
    let ghost v = t.deep_view();
    let ghost goal = grammar::after_import(bytes@, v, 1, imports.deep_entries());
    let mut i: usize = 1;
    let mut more = true;
    while more
        invariant
            imports.wf(),
            v == t.deep_view(),
            i <= v.len() + 1,
            more ==> grammar::after_import(bytes@, v, i as int, imports.deep_entries()) == goal,
            !more ==> imports.deep_entries() == goal,
        decreases (if more { v.len() + 2 - i } else { 0 }),
    {
        match parse_dotted_name(bytes, t, i) {
            None => {
                more = false;
            },
            Some((module, end)) => {
                let default = tail_after(module.as_str(), '.');
                let (alias, next) = renamed(t, end, default);
                bind(imports, alias, ImportBinding::Module { module });
                if is_kind(t, next, TokenKindTag::Comma) {
                    i = next + 1;
                } else {
                    more = false;
                }
            },
        }
    }
}

/// The module that `from` names.
pub fn resolve_from_module(package: &str, level: usize, part: &str) -> (module: String)
    ensures
        module@ == grammar::from_module(package@, level as int, part@),
{
    if level == 0 {
        return part.to_owned();
    }
    let mut segments: Vec<String> = if package.is_empty() {
        Vec::new()
    } else {
        split_text(package, Some('.'))
    };
    let ghost all = segments.deep_view();
    assert(package@.len() == 0 ==> all =~= Seq::<Text>::empty());
    let keep: usize = if level - 1 <= segments.len() {
        segments.len() - (level - 1)
    } else {
        0
    };
    segments.truncate(keep);
    assert(segments.deep_view() =~= all.take(keep as int));
    let ghost base = segments.deep_view();
    assert(level - 1 > all.len() ==> base =~= Seq::<Text>::empty());
    if !part.is_empty() {
        let mut rest = split_text(part, Some('.'));
        let ghost tail = rest.deep_view();
        segments.append(&mut rest);
        assert(segments.deep_view() =~= base + tail);
    }
    join_text(&segments, ".")
}

/// Reads `from .. import ..`: binds each name, or notes the module whose names are all taken.
pub(crate) fn parse_from_import_statement(
    bytes: &[u8],
    package: &str,
    t: &Vec<TokenSpan>,
    imports: &mut NameMap<ImportBinding>,
    star_imports: &mut Vec<String>,
    Ghost(module_name): Ghost<Text>,
)
    requires
        old(imports).wf(),
        t@.len() > 0,
    ensures
        final(imports).wf(),
        grammar::from_import(
            (grammar::Context { bytes: bytes@, module_name, package_name: package@ }),
            t.deep_view(),
            old(imports).deep_entries(),
            old(star_imports).deep_view(),
        ) == (final(imports).deep_entries(), final(star_imports).deep_view()),
{
    let ghost v = t.deep_view();
    let mut dots: usize = 1;
    while is_kind(t, dots, TokenKindTag::Dot)
        invariant
            1 <= dots <= t@.len(),
            v == t.deep_view(),
            grammar::dots_end(v, dots as int) == grammar::dots_end(v, 1),
        decreases t@.len() - dots,
    {
        dots = dots + 1;
    }
    let (part, end) = match parse_dotted_name(bytes, t, dots) {
        Some(found) => found,
        None => (String::new(), dots),
    };
    assert(part@.len() == 0 ==> part@ =~= Seq::<char>::empty());
    if !is_kind(t, end, TokenKindTag::Import) {
        return;
    }
    let mut i: usize = end + 1;
    if is_kind(t, i, TokenKindTag::Lpar) {
        i = i + 1;
    }
    let resolved = resolve_from_module(package, dots - 1, part.as_str());
    let ghost goal = grammar::after_from(
        bytes@,
        v,
        i as int,
        resolved@,
        part@,
        imports.deep_entries(),
        star_imports.deep_view(),
    );
    while i < t.len()
        invariant
            i <= t@.len(),
            imports.wf(),
            v == t.deep_view(),
            grammar::from_import(
                (grammar::Context { bytes: bytes@, module_name, package_name: package@ }),
                v,
                old(imports).deep_entries(),
                old(star_imports).deep_view(),
            ) == goal,
            grammar::after_from(
                bytes@,
                v,
                i as int,
                resolved@,
                part@,
                imports.deep_entries(),
                star_imports.deep_view(),
            ) == goal,
        decreases t@.len() - i,
    {
        if is_kind(t, i, TokenKindTag::Rpar) {
            return;
        }
        if same(token_text(bytes, t, i).as_str(), "*") {
            let ghost before = star_imports.deep_view();
            star_imports.push(resolved);
            assert(star_imports.deep_view() =~= before.push(resolved@));
            return;
        }
        match token_name(t, i) {
            None => {
                i = i + 1;
            },
            Some(name) => {
                let (alias, next) = renamed(t, i + 1, name.clone());
                let binding = if part.as_str().is_empty() {
                    ImportBinding::Module { module: cat3(resolved.as_str(), ".", name.as_str()) }
                } else {
                    ImportBinding::ImportedName { module: resolved.clone(), name }
                };
                bind(imports, alias, binding);
                if is_kind(t, next, TokenKindTag::Comma) {
                    i = next + 1;
                } else {
                    return;
                }
            },
        }
    }
}

/// How many brackets of each kind are open.
struct BracketDepths {
    paren: usize,
    square: usize,
    brace: usize,
}

impl BracketDepths {
    spec fn counts(&self) -> Depths {
        Depths { paren: self.paren as int, square: self.square as int, brace: self.brace as int }
    }

    /// Counts a token of this kind.
    fn count(&mut self, kind: TokenKindTag)
        requires
            old(self).paren < usize::MAX,
            old(self).square < usize::MAX,
            old(self).brace < usize::MAX,
        ensures
            final(self).counts() == old(self).counts().after(kind),
    {
        match kind {
            TokenKindTag::Lpar => {
                self.paren = self.paren + 1;
            },
            TokenKindTag::Rpar => {
                self.paren = self.paren.saturating_sub(1);
            },
            TokenKindTag::Lsqb => {
                self.square = self.square + 1;
            },
            TokenKindTag::Rsqb => {
                self.square = self.square.saturating_sub(1);
            },
            TokenKindTag::Lbrace => {
                self.brace = self.brace + 1;
            },
            TokenKindTag::Rbrace => {
                self.brace = self.brace.saturating_sub(1);
            },
            _ => {},
        }
    }
}

/// The place of the first `=` outside brackets, from token 2 on.
fn top_level_equal_index(t: &Vec<TokenSpan>) -> (place: Option<usize>)
    ensures
        match place {
            Some(i) => i < t@.len() && grammar::top_level_equal(
                t.deep_view(),
                2,
                (Depths { paren: 0, square: 0, brace: 0 }),
            ) == Some(i as int),
            None => grammar::top_level_equal(
                t.deep_view(),
                2,
                (Depths { paren: 0, square: 0, brace: 0 }),
            ) is None,
        },
{
    let ghost v = t.deep_view();
    let mut depths = BracketDepths { paren: 0, square: 0, brace: 0 };
    let mut i: usize = 2;
    while i < t.len()
        invariant
            v == t.deep_view(),
            depths.paren < i,
            depths.square < i,
            depths.brace < i,
            grammar::top_level_equal(v, i as int, depths.counts()) == grammar::top_level_equal(
                v,
                2,
                Depths { paren: 0, square: 0, brace: 0 },
            ),
        decreases t@.len() - i,
    {
        let kind = t[i].kind;
        if kind == TokenKindTag::Equal && depths.paren == 0 && depths.square == 0 && depths.brace == 0 {
            return Some(i);
        }
        depths.count(kind);
        i = i + 1;
    }
    None
}

/// Behind the square bracket that closes the one at token `start`.
fn skip_square(t: &Vec<TokenSpan>, start: usize) -> (end: usize)
    requires
        start < t@.len(),
    ensures
        end == grammar::square_end(t.deep_view(), start as int, 0),
        start < end <= t@.len(),
{
    let ghost v = t.deep_view();
    let mut depth: usize = 0;
    let mut i: usize = start;
    proof {
        grammar::lemma_square_end(v, start as int, 0);
    }
    while i < t.len()
        invariant
            start <= i <= t@.len(),
            v == t.deep_view(),
            depth <= i,
            grammar::square_end(v, i as int, depth as int) == grammar::square_end(v, start as int, 0),
        decreases t@.len() - i,
    {
        let kind = t[i].kind;
        if kind == TokenKindTag::Lsqb {
            depth = depth + 1;
        } else if kind == TokenKindTag::Rsqb {
            depth = depth.saturating_sub(1);
            if depth == 0 {
                return i + 1;
            }
        }
        i = i + 1;
    }
    i
}

/// Adds the base that tokens `start..end` spell.
fn push_base(bytes: &[u8], t: &Vec<TokenSpan>, start: usize, end: usize, parts: &mut Vec<String>)
    ensures
        final(parts).deep_view() == old(parts).deep_view() + grammar::base_between(
            bytes@,
            t.deep_view(),
            start as int,
            end as int,
        ),
{
    let ghost before = parts.deep_view();
    if start < end {
        let base = normalize_inline_whitespace(slice_span(bytes, t, start, end - 1).as_str());
        if !base.as_str().is_empty() {
            let ghost spelled = base@;
            parts.push(base);
            assert(parts.deep_view() =~= before + seq![spelled]);
            return;
        }
    }
    assert(parts.deep_view() =~= before + Seq::<Text>::empty());
}

/// The bases of a class whose name stands before token `after_name`.
pub fn extract_class_bases(bytes: &[u8], t: &Vec<TokenSpan>, after_name: usize) -> (parts: Vec<String>)
    requires
        after_name <= t@.len(),
    ensures
        parts.deep_view() == grammar::class_bases(bytes@, t.deep_view(), after_name as int),
{
    let ghost v = t.deep_view();
    let mut open: usize = after_name;
    while is_kind(t, open, TokenKindTag::Lsqb)
        invariant
            open <= t@.len(),
            v == t.deep_view(),
            grammar::past_squares(v, open as int) == grammar::past_squares(v, after_name as int),
        decreases t@.len() - open,
    {
        open = skip_square(t, open);
    }
    let mut parts: Vec<String> = Vec::new();
    if !is_kind(t, open, TokenKindTag::Lpar) {
        assert(parts.deep_view() =~= Seq::<Text>::empty());
        return parts;
    }
    let mut depths = BracketDepths { paren: 1, square: 0, brace: 0 };
    let mut start: usize = open + 1;
    let mut i: usize = open + 1;
    let ghost goal = grammar::bases_from(bytes@, v, i as int, i as int, depths.counts());
    assert(parts.deep_view() + goal =~= goal);
    while i < t.len()
        invariant
            start <= i <= t@.len(),
            v == t.deep_view(),
            depths.paren <= i,
            depths.square <= i,
            depths.brace <= i,
            grammar::class_bases(bytes@, v, after_name as int) == goal,
            parts.deep_view() + grammar::bases_from(
                bytes@,
                v,
                i as int,
                start as int,
                depths.counts(),
            ) == goal,
        decreases t@.len() - i,
    {
        let kind = t[i].kind;
        let ghost before = parts.deep_view();
        if kind == TokenKindTag::Rpar && depths.paren == 1 {
            push_base(bytes, t, start, i, &mut parts);
            return parts;
        }
        if kind == TokenKindTag::Comma && depths.paren == 1 && depths.square == 0 && depths.brace == 0 {
            push_base(bytes, t, start, i, &mut parts);
            assert(before + (grammar::base_between(bytes@, v, start as int, i as int)
                + grammar::bases_from(bytes@, v, i + 1, i + 1, depths.counts()))
                =~= parts.deep_view() + grammar::bases_from(
                bytes@,
                v,
                i + 1,
                i + 1,
                depths.counts(),
            ));
            start = i + 1;
        } else {
            depths.count(kind);
        }
        i = i + 1;
    }
    assert(parts.deep_view() + Seq::<Text>::empty() =~= parts.deep_view());
    parts
}

/// The call or reference that a dotted name from token `i` to before token `end` makes.
fn site_at(lines: &mut LineIndex, t: &Vec<TokenSpan>, i: usize, target: String, end: usize) -> (site: CallSite)
    requires
        old(lines).wf(),
        tokens::countable(t.deep_view()),
        i < end <= t@.len(),
    ensures
        final(lines).wf(),
        final(lines).bytes == old(lines).bytes,
        site.deep_view() == grammar::site(
            old(lines).bytes@,
            t.deep_view(),
            i as int,
            target@,
            end as int,
        ),
{
    assert(t.deep_view()[i as int].start < u32::MAX);
    assert(t.deep_view()[end - 1].end < u32::MAX);
    let start = point_at(lines, t[i].start);
    let last = point_at(lines, t[end - 1].end);
    CallSite { raw_target: target, range: SourceRange { start, end: last } }
}

/// The calls of a statement.
pub fn extract_call_sites(lines: &mut LineIndex, t: &Vec<TokenSpan>) -> (calls: Vec<CallSite>)
    requires
        old(lines).wf(),
        tokens::countable(t.deep_view()),
    ensures
        final(lines).wf(),
        final(lines).bytes == old(lines).bytes,
        calls.deep_view() == grammar::call_sites(old(lines).bytes@, t.deep_view(), 0),
{
    let ghost v = t.deep_view();
    let bytes = lines.bytes;
    let mut calls: Vec<CallSite> = Vec::new();
    let mut i: usize = 0;
    let ghost goal = grammar::call_sites(bytes@, v, 0);
    assert(calls.deep_view() + goal =~= goal);
    while i < t.len()
        invariant
            i <= t@.len(),
            v == t.deep_view(),
            lines.wf(),
            lines.bytes == bytes,
            tokens::countable(v),
            calls.deep_view() + grammar::call_sites(bytes@, v, i as int) == goal,
        decreases t@.len() - i,
    {
        let inside = i > 0 && is_kind(t, i - 1, TokenKindTag::Dot);
        if is_kind(t, i, TokenKindTag::Name) && !inside {
            if let Some((target, end)) = parse_dotted_name(bytes, t, i) {
                if is_kind(t, end, TokenKindTag::Lpar) {
                    let ghost before = calls.deep_view();
                    let site = site_at(lines, t, i, target, end);
                    let ghost here = site.deep_view();
                    calls.push(site);
                    assert(calls.deep_view() =~= before.push(here));
                    assert(before + (seq![here] + grammar::call_sites(bytes@, v, end + 1))
                        =~= calls.deep_view() + grammar::call_sites(bytes@, v, end + 1));
                    i = end + 1;
                    continue ;
                }
            }
        }
        i = i + 1;
    }
    assert(calls.deep_view() + grammar::call_sites(bytes@, v, i as int) =~= calls.deep_view());
    calls
}

/// Whether a reference has been found already.
fn has_site(found: &Vec<CallSite>, site: &CallSite) -> (held: bool)
    ensures
        held == found.deep_view().contains(site.deep_view()),
{
    let ghost viewed = found.deep_view();
    let mut i: usize = 0;
    while i < found.len()
        invariant
            i <= found@.len(),
            viewed == found.deep_view(),
            forall|k: int| 0 <= k < i ==> #[trigger] viewed[k] != site.deep_view(),
        decreases found@.len() - i,
    {
        assert(viewed[i as int] == found@[i as int].deep_view());
        if found[i].raw_target == site.raw_target && found[i].range == site.range {
            assert(viewed[i as int] == site.deep_view());
            return true;
        }
        i = i + 1;
    }
    false
}

/// The references of a statement from token `first` on.
pub fn extract_reference_sites(lines: &mut LineIndex, t: &Vec<TokenSpan>, first: usize) -> (found: Vec<CallSite>)
    requires
        old(lines).wf(),
        tokens::countable(t.deep_view()),
        first <= t@.len(),
    ensures
        final(lines).wf(),
        final(lines).bytes == old(lines).bytes,
        found.deep_view() == grammar::reference_sites(
            old(lines).bytes@,
            t.deep_view(),
            first as int,
            first as int,
            Seq::empty(),
        ),
{
    let ghost v = t.deep_view();
    let bytes = lines.bytes;
    let mut found: Vec<CallSite> = Vec::new();
    let mut i: usize = first;
    let ghost goal = grammar::reference_sites(bytes@, v, first as int, first as int, Seq::empty());
    assert(found.deep_view() =~= Seq::empty());
    while i < t.len()
        invariant
            i <= t@.len(),
            v == t.deep_view(),
            lines.wf(),
            lines.bytes == bytes,
            tokens::countable(v),
            grammar::reference_sites(bytes@, v, i as int, first as int, found.deep_view()) == goal,
        decreases t@.len() - i,
    {
        let inside = i > first && is_kind(t, i - 1, TokenKindTag::Dot);
        if is_kind(t, i, TokenKindTag::Name) && !inside {
            if let Some((target, end)) = parse_dotted_name(bytes, t, i) {
                if is_kind(t, end, TokenKindTag::Lpar) || is_kind(t, end, TokenKindTag::Equal) {
                    i = end + 1;
                } else {
                    let site = site_at(lines, t, i, target, end);
                    if !has_site(&found, &site) {
                        let ghost before = found.deep_view();
                        let ghost here = site.deep_view();
                        found.push(site);
                        assert(found.deep_view() =~= before.push(here));
                    }
                    i = end;
                }
                continue ;
            }
        }
        i = i + 1;
    }
    found
}

/// Whether a statement assigns to a name.
pub fn assigns_name(t: &Vec<TokenSpan>) -> (r: bool)
    ensures
        r == grammar::assigns_name(t.deep_view()),
{
    t.len() >= 3 && t[0].kind == TokenKindTag::Name && t[1].kind == TokenKindTag::Equal
}

/// The stretch that a text covers which starts at a position.
pub fn reference_range_from_text(at: RangePoint, covered: &str) -> (range: SourceRange)
    ensures
        range == grammar::text_range(at, covered@),
{
    let width = chars_of(covered).len().saturating_sub(1);
    let last = at.col.saturating_add(width);
    SourceRange { start: at, end: RangePoint { line: at.line, col: last } }
}

/// A text, where there is any.
fn if_any(s: String) -> (r: Option<String>)
    ensures
        r.deep_view() == grammar::if_any(s@),
{
    if s.as_str().is_empty() {
        None
    } else {
        Some(s)
    }
}

/// A field with the name and position of token 0 and a type at token 2.
fn field_with(
    lines: &mut LineIndex,
    t: &Vec<TokenSpan>,
    annotation: String,
    required: bool,
    type_ref: Option<String>,
    Ghost(ctx): Ghost<grammar::Context>,
) -> (field: FieldInfo)
    requires
        old(lines).wf(),
        ctx.bytes == old(lines).bytes@,
        tokens::countable(t.deep_view()),
        t@.len() >= 3,
    ensures
        final(lines).wf(),
        final(lines).bytes == old(lines).bytes,
        field.deep_view() == grammar::field_with(
            ctx,
            t.deep_view(),
            annotation@,
            required,
            type_ref.deep_view(),
        ),
{
    assert(t.deep_view()[0].start < u32::MAX);
    assert(t.deep_view()[2].start < u32::MAX);
    let name = token_text(lines.bytes, t, 0);
    let at = point_at(lines, t[0].start);
    let type_at = point_at(lines, t[2].start);
    FieldInfo {
        name,
        annotation,
        required,
        line: at.line,
        col: at.col,
        type_ref,
        type_line: Some(type_at.line),
        type_col: Some(type_at.col),
    }
}

/// The field that an annotated name declares.
pub(crate) fn parse_field_statement(
    lines: &mut LineIndex,
    t: &Vec<TokenSpan>,
    Ghost(ctx): Ghost<grammar::Context>,
) -> (field: Option<FieldInfo>)
    requires
        old(lines).wf(),
        ctx.bytes == old(lines).bytes@,
        tokens::countable(t.deep_view()),
    ensures
        final(lines).wf(),
        final(lines).bytes == old(lines).bytes,
        field.deep_view() == grammar::annotated_field(ctx, t.deep_view()),
{
    if t.len() < 3 || t[0].kind != TokenKindTag::Name || t[1].kind != TokenKindTag::Colon {
        return None;
    }
    let end = match top_level_equal_index(t) {
        Some(i) => i,
        None => t.len(),
    };
    if end <= 2 {
        return None;
    }
    let annotation = normalize_inline_whitespace(
        slice_span(lines.bytes, t, 2, end - 1).as_str(),
    );
    let required = end == t.len() && annotation_is_required(annotation.as_str());
    let type_ref = if_any(normalize_type_head(annotation.as_str()));
    Some(field_with(lines, t, annotation, required, type_ref, Ghost(ctx)))
}

/// The type of an enum member with this value.
fn member_type(value: &str) -> (annotation: String)
    requires
        value@.len() > 0,
    ensures
        annotation@ == grammar::member_type(value@),
{
    let chars = chars_of(value);
    let first = chars[0];
    if first == '"' || first == '\'' {
        "str".to_owned()
    } else if ('0' <= first && first <= '9') || first == '-' {
        "int".to_owned()
    } else {
        String::new()
    }
}

/// The field that an assignment in the body of a class with these bases declares.
pub(crate) fn parse_assignment_field_statement(
    lines: &mut LineIndex,
    t: &Vec<TokenSpan>,
    bases: &Vec<String>,
    Ghost(ctx): Ghost<grammar::Context>,
) -> (field: Option<FieldInfo>)
    requires
        old(lines).wf(),
        ctx.bytes == old(lines).bytes@,
        tokens::countable(t.deep_view()),
    ensures
        final(lines).wf(),
        final(lines).bytes == old(lines).bytes,
        field.deep_view() == grammar::assigned_field(ctx, t.deep_view(), bases.deep_view()),
{
    if !assigns_name(t) {
        return None;
    }
    let value = normalize_inline_whitespace(
        slice_span(lines.bytes, t, 2, t.len() - 1).as_str(),
    );
    if value.as_str().is_empty() {
        return None;
    }
    if is_enum_class(bases) {
        let annotation = member_type(value.as_str());
        Some(field_with(lines, t, annotation, false, None, Ghost(ctx)))
    } else {
        let type_ref = if_any(normalize_type_head(value.as_str()));
        Some(field_with(lines, t, value, true, type_ref, Ghost(ctx)))
    }
}

} // verus!
