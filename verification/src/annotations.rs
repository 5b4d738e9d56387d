//! What is read off annotations and base class lists: type heads, defaults, enum bases.
use vstd::prelude::*;

use crate::text;
use crate::text::chars_of;
use crate::text::join_text;
use crate::text::same;
use crate::text::split_filled;
use crate::text::tail_after;
use crate::text::trim_text;
use crate::text::Text;

verus! {

/// What is left of a type up to its arguments, its alternatives or the next type, without blanks
/// and angle brackets; `angle` brackets are open.
pub open spec fn head_from(s: Text, angle: nat) -> Text
    decreases s.len(),
{
    if s.len() == 0 {
        Seq::empty()
    } else {
        let c = s[0];
        let rest = s.drop_first();
        if c == '[' || c == '(' {
            Seq::empty()
        } else if (c == '|' || c == ',') && angle == 0 {
            Seq::empty()
        } else if c == '<' {
            head_from(rest, angle + 1)
        } else if c == '>' {
            head_from(rest, if angle > 0 { (angle - 1) as nat } else { 0 })
        } else if c == ' ' || c == '\t' || c == '\r' || c == '\n' {
            head_from(rest, angle)
        } else {
            seq![c] + head_from(rest, angle)
        }
    }
}

/// The head of a type: `list` of `list[int]`, `str` of `str | None`.
pub open spec fn type_head(raw: Text) -> Text {
    head_from(text::trimmed(raw), 0)
}

/// A text with its words one blank apart.
pub open spec fn one_blank_apart(s: Text) -> Text {
    text::joined(text::filled(text::split(s, None)), seq![' '])
}

/// A text with its words one blank apart is left as it is.
pub proof fn law_blanks_are_settled(s: Text)
    ensures
        one_blank_apart(one_blank_apart(s)) == one_blank_apart(s),
{
    let parts = text::split(s, None);
    let words = text::filled(parts);
    text::law_split_parts_are_unbroken(s, None);
    text::lemma_filled(parts);
    if words.len() == 0 {
        reveal_with_fuel(text::filled, 2);
        assert(text::filled(text::split(Seq::empty(), None)) =~= Seq::<Text>::empty());
    } else {
        assert forall|i: int, k: int| 0 <= i < words.len() && 0 <= k < words[i].len() implies !text::breaks(
            #[trigger] words[i][k],
            None,
        ) by {
            let m = choose|m: int| 0 <= m < parts.len() && parts[m] == words[i];
            assert(!text::breaks(parts[m][k], None));
        }
        text::law_split_undoes_join(words, ' ', None);
        text::lemma_filled(words);
    }
}

/// The lower-case form of an ASCII letter; other characters are their own.
pub open spec fn lower(c: char) -> char {
    if 'A' <= c <= 'Z' {
        (c as u32 + 32) as char
    } else {
        c
    }
}

/// A text without blanks, in lower case.
pub open spec fn flattened(s: Text) -> Text
    decreases s.len(),
{
    if s.len() == 0 {
        Seq::empty()
    } else if s.last() == ' ' {
        flattened(s.drop_last())
    } else {
        flattened(s.drop_last()).push(lower(s.last()))
    }
}

/// Whether an annotation leaves no way to omit the value.
pub open spec fn demands_value(annotation: Text) -> bool {
    let flat = flattened(annotation);
    &&& !text::occurs(flat, "|none"@)
    &&& !text::occurs(flat, "optional["@)
    &&& !text::occurs(flat, "=none"@)
}

/// Whether the last segment of a base names a class of enums.
pub open spec fn is_enum_base(base: Text) -> bool {
    let head = text::after_last(base, '.');
    ||| head == "Enum"@
    ||| head == "IntEnum"@
    ||| head == "StrEnum"@
    ||| head == "Flag"@
    ||| head == "IntFlag"@
}

/// Whether a class with these bases is an enum.
pub open spec fn has_enum_base(bases: Seq<Text>) -> bool {
    exists|i: int| 0 <= i < bases.len() && is_enum_base(#[trigger] bases[i])
}

/// The head of a type.
pub fn normalize_type_head(raw: &str) -> (head: String)
    ensures
        head@ == type_head(raw@),
{
    let trimmed = trim_text(raw);
    let chars = chars_of(trimmed.as_str());
    let mut head = String::new();
    let mut angle: usize = 0;
    let mut i: usize = 0;
    assert(chars@.skip(0) =~= chars@);
    assert(head@ + head_from(chars@.skip(0), 0) =~= head_from(chars@, 0));
    while i < chars.len()
        invariant
            i <= chars@.len(),
            angle <= i,
            chars@ == text::trimmed(raw@),
            head@ + head_from(chars@.skip(i as int), angle as nat) == head_from(chars@, 0),
        decreases chars@.len() - i,
    {
        let c = chars[i];
        assert(chars@.skip(i as int)[0] == c);
        assert(chars@.skip(i as int).drop_first() =~= chars@.skip(i as int + 1));
        let ghost rest = head_from(chars@.skip(i as int), angle as nat);
        if c == '[' || c == '(' || ((c == '|' || c == ',') && angle == 0) {
            assert(head@ + rest =~= head@);
            return head;
        }
        if c == '<' {
            angle = angle + 1;
        } else if c == '>' {
            if angle > 0 {
                angle = angle - 1;
            }
        } else if c == ' ' || c == '\t' || c == '\r' || c == '\n' {
        } else {
            let ghost before = head@;
            head.push(c);
            assert(before + rest =~= head@ + head_from(chars@.skip(i as int + 1), angle as nat));
        }
        i = i + 1;
    }
    assert(chars@.skip(i as int) =~= Seq::<char>::empty());
    assert(head@ + head_from(chars@.skip(i as int), angle as nat) =~= head@);
    head
}

/// A text with its words one blank apart and none at its ends.
pub fn normalize_inline_whitespace(input: &str) -> (line: String)
    ensures
        line@ == one_blank_apart(input@),
{
    let words = split_filled(input, None);
    proof {
        reveal_strlit(" ");
        assert(" "@ =~= seq![' ']);
    }
    join_text(&words, " ")
}

/// The lower-case form of an ASCII letter; other characters are their own.
fn lowered(c: char) -> (r: char)
    ensures
        r == lower(c),
{
    if 'A' <= c && c <= 'Z' {
        (c as u8 + 32) as char
    } else {
        c
    }
}

/// Whether the characters of `needle` occur in `haystack`, one after the other.
fn contains_chars(haystack: &Vec<char>, needle: &str) -> (found: bool)
    ensures
        found == text::occurs(haystack@, needle@),
{
    let needle_chars = chars_of(needle);
    let n = needle_chars.len();
    let total = haystack.len();
    if total < n {
        return false;
    }
    let mut i: usize = 0;
    while i <= total - n
        invariant
            total == haystack@.len(),
            n == needle_chars@.len() <= total,
            needle_chars@ == needle@,
            i <= haystack@.len() - n + 1,
            forall|k: int| 0 <= k < i ==> #[trigger] haystack@.subrange(k, k + n) != needle@,
        decreases haystack@.len() - n + 1 - i,
    {
        let mut k: usize = 0;
        while k < n && haystack[i + k] == needle_chars[k]
            invariant
                k <= n,
                i + n <= total == haystack@.len(),
                n == needle_chars@.len(),
                forall|m: int| 0 <= m < k ==> haystack@[i + m] == #[trigger] needle_chars@[m],
            decreases n - k,
        {
            k = k + 1;
        }
        if k == n {
            assert(haystack@.subrange(i as int, i + n) =~= needle@);
            return true;
        }
        assert(haystack@.subrange(i as int, i + n)[k as int] != needle@[k as int]);
        i = i + 1;
    }
    false
}

/// Whether an annotation leaves no way to omit the value.
pub fn annotation_is_required(annotation: &str) -> (required: bool)
    ensures
        required == demands_value(annotation@),
{
    let chars = chars_of(annotation);
    let mut flat: Vec<char> = Vec::new();
    let mut i: usize = 0;
    while i < chars.len()
        invariant
            i <= chars@.len(),
            flat@ == flattened(chars@.take(i as int)),
        decreases chars@.len() - i,
    {
        assert(chars@.take(i as int + 1).drop_last() =~= chars@.take(i as int));
        let c = chars[i];
        if c != ' ' {
            flat.push(lowered(c));
        }
        i = i + 1;
    }
    assert(chars@.take(i as int) =~= annotation@);
    !contains_chars(&flat, "|none") && !contains_chars(&flat, "optional[") && !contains_chars(
        &flat,
        "=none",
    )
}

/// Whether a class with these bases is an enum.
pub fn is_enum_class(bases: &Vec<String>) -> (enumerates: bool)
    ensures
        enumerates == has_enum_base(bases.deep_view()),
{
    let ghost viewed = bases.deep_view();
    let mut i: usize = 0;
    while i < bases.len()
        invariant
            i <= bases@.len(),
            viewed == bases.deep_view(),
            forall|k: int| 0 <= k < i ==> !is_enum_base(#[trigger] viewed[k]),
        decreases bases@.len() - i,
    {
        assert(viewed[i as int] == bases@[i as int]@);
        let head = tail_after(bases[i].as_str(), '.');
        if same(head.as_str(), "Enum") || same(head.as_str(), "IntEnum") || same(
            head.as_str(),
            "StrEnum",
        ) || same(head.as_str(), "Flag") || same(head.as_str(), "IntFlag") {
            return true;
        }
        i = i + 1;
    }
    false
}

} // verus!
