//! Text as a sequence of characters: splitting, joining, trimming, comparing.
use vstd::prelude::*;

verus! {

/// A run of characters, as contracts speak of it.
pub type Text = Seq<char>;

/// `String::push`: the string grows by the one character at its end.
pub assume_specification[ String::push ](string: &mut String, c: char)
    ensures
        final(string)@ == old(string)@.push(c),
;

/// Whether two texts hold the same characters.
pub(crate) fn same(a: &str, b: &str) -> (equal: bool)
    ensures
        equal == (a@ == b@),
{
    a.to_owned() == b.to_owned()
}

/// The characters with Unicode's `White_Space` property.
pub open spec fn is_white(c: char) -> bool {
    ||| '\u{9}' <= c <= '\u{d}'
    ||| c == ' '
    ||| c == '\u{85}'
    ||| c == '\u{a0}'
    ||| c == '\u{1680}'
    ||| '\u{2000}' <= c <= '\u{200a}'
    ||| c == '\u{2028}'
    ||| c == '\u{2029}'
    ||| c == '\u{202f}'
    ||| c == '\u{205f}'
    ||| c == '\u{3000}'
}

/// Whether a character is white space.
pub fn white(c: char) -> (r: bool)
    ensures
        r == is_white(c),
{
    ('\u{9}' <= c && c <= '\u{d}') || c == ' ' || c == '\u{85}' || c == '\u{a0}' || c == '\u{1680}'
        || ('\u{2000}' <= c && c <= '\u{200a}') || c == '\u{2028}' || c == '\u{2029}'
        || c == '\u{202f}' || c == '\u{205f}' || c == '\u{3000}'
}

/// Whether `c` ends a part: the given character, or any white space where none is given.
pub open spec fn breaks(c: char, at: Option<char>) -> bool {
    match at {
        Some(mark) => c == mark,
        None => is_white(c),
    }
}

/// The parts of `s` between the characters that break it; one more than there are breaks.
pub open spec fn split(s: Text, at: Option<char>) -> Seq<Text>
    decreases s.len(),
{
    if s.len() == 0 {
        seq![Seq::empty()]
    } else {
        let parts = split(s.drop_last(), at);
        if breaks(s.last(), at) {
            parts.push(Seq::empty())
        } else {
            parts.drop_last().push(parts.last().push(s.last()))
        }
    }
}

/// The parts that hold something, in order.
pub open spec fn filled(parts: Seq<Text>) -> Seq<Text>
    decreases parts.len(),
{
    if parts.len() == 0 {
        Seq::empty()
    } else if parts.last().len() == 0 {
        filled(parts.drop_last())
    } else {
        filled(parts.drop_last()).push(parts.last())
    }
}

/// The parts one after the other, with `mark` between each two.
pub open spec fn joined(parts: Seq<Text>, mark: Text) -> Text
    decreases parts.len(),
{
    if parts.len() == 0 {
        Seq::empty()
    } else if parts.len() == 1 {
        parts[0]
    } else {
        joined(parts.drop_last(), mark) + mark + parts.last()
    }
}

/// The position of the last `c` in `s`, -1 where there is none.
pub open spec fn last_position(s: Text, c: char) -> int
    decreases s.len(),
{
    if s.len() == 0 {
        -1
    } else if s.last() == c {
        s.len() - 1
    } else {
        last_position(s.drop_last(), c)
    }
}

/// What stands before and after the last `c`.
pub open spec fn split_at_last(s: Text, c: char) -> Option<(Text, Text)> {
    let i = last_position(s, c);
    if i < 0 {
        None
    } else {
        Some((s.subrange(0, i), s.subrange(i + 1, s.len() as int)))
    }
}

/// What stands after the last `c`, all of `s` where there is none.
pub open spec fn after_last(s: Text, c: char) -> Text {
    s.subrange(last_position(s, c) + 1, s.len() as int)
}

/// `s` without white space at its end.
pub open spec fn trimmed_end(s: Text) -> Text
    decreases s.len(),
{
    if s.len() > 0 && is_white(s.last()) {
        trimmed_end(s.drop_last())
    } else {
        s
    }
}

/// `s` without white space at its start.
pub open spec fn trimmed_start(s: Text) -> Text
    decreases s.len(),
{
    if s.len() > 0 && is_white(s.first()) {
        trimmed_start(s.drop_first())
    } else {
        s
    }
}

/// `s` without white space at either end.
pub open spec fn trimmed(s: Text) -> Text {
    trimmed_end(trimmed_start(s))
}

/// Whether `s` starts with `head`.
pub open spec fn begins(s: Text, head: Text) -> bool {
    head.len() <= s.len() && s.subrange(0, head.len() as int) == head
}

/// Whether `s` ends with `tail`.
pub open spec fn ends(s: Text, tail: Text) -> bool {
    tail.len() <= s.len() && s.subrange(s.len() - tail.len(), s.len() as int) == tail
}

/// Whether `needle` occurs in `s`.
pub open spec fn occurs(s: Text, needle: Text) -> bool {
    exists|i: int| 0 <= i <= s.len() - needle.len() && #[trigger] s.subrange(i, i + needle.len()) == needle
}

pub proof fn lemma_last_position(s: Text, c: char)
    ensures
        -1 <= last_position(s, c) < s.len(),
        last_position(s, c) >= 0 ==> s[last_position(s, c)] == c,
        forall|i: int| last_position(s, c) < i < s.len() ==> s[i] != c,
    decreases s.len(),
{
    if s.len() > 0 && s.last() != c {
        lemma_last_position(s.drop_last(), c);
        assert forall|i: int| last_position(s, c) < i < s.len() implies s[i] != c by {
            if i < s.len() - 1 {
                assert(s[i] == s.drop_last()[i]);
            }
        }
    }
}

/// Where two texts end alike behind their last `c`, they are alike before it too.
pub proof fn lemma_same_last(a: Text, x: Text, b: Text, y: Text, c: char)
    requires
        !x.contains(c),
        !y.contains(c),
        a.push(c) + x == b.push(c) + y,
    ensures
        a == b,
        x == y,
{
    let s = a.push(c) + x;
    let t = b.push(c) + y;
    lemma_last_position(s, c);
    let p = last_position(s, c);
    assert(s[a.len() as int] == c && t[b.len() as int] == c);
    assert forall|i: int| a.len() < i < s.len() implies s[i] != c by {
        assert(x.contains(x[i - a.len() - 1]));
    }
    assert forall|i: int| b.len() < i < t.len() implies t[i] != c by {
        assert(y.contains(y[i - b.len() - 1]));
    }
    assert(p == a.len() && p == b.len());
    assert(a =~= s.take(p) && b =~= t.take(p));
    assert(x =~= s.skip(p + 1) && y =~= t.skip(p + 1));
}

proof fn lemma_split_nonempty(s: Text, at: Option<char>)
    ensures
        split(s, at).len() >= 1,
    decreases s.len(),
{
    if s.len() > 0 {
        lemma_split_nonempty(s.drop_last(), at);
    }
}

/// Joining the parts with the character they were split at gives the text back.
pub proof fn law_join_undoes_split(s: Text, mark: char)
    ensures
        joined(split(s, Some(mark)), seq![mark]) == s,
    decreases s.len(),
{
    if s.len() > 0 {
        let before = split(s.drop_last(), Some(mark));
        law_join_undoes_split(s.drop_last(), mark);
        lemma_split_nonempty(s.drop_last(), Some(mark));
        if s.last() == mark {
            assert(before.push(Seq::empty()).drop_last() =~= before);
        } else {
            let after = before.drop_last().push(before.last().push(s.last()));
            assert(after.drop_last() =~= before.drop_last());
        }
        assert(joined(split(s, Some(mark)), seq![mark]) =~= s.drop_last().push(s.last()));
    }
}

/// No part holds the character that the text was split at.
pub proof fn law_split_parts_are_unbroken(s: Text, at: Option<char>)
    ensures
        split(s, at).len() >= 1,
        forall|i: int, k: int|
            0 <= i < split(s, at).len() && 0 <= k < split(s, at)[i].len() ==> !breaks(
                #[trigger] split(s, at)[i][k],
                at,
            ),
    decreases s.len(),
{
    if s.len() > 0 {
        law_split_parts_are_unbroken(s.drop_last(), at);
    }
}

/// What holds no break and stands at the end belongs to the last part.
pub proof fn lemma_split_unbroken_tail(s: Text, tail: Text, at: Option<char>)
    requires
        forall|k: int| 0 <= k < tail.len() ==> !breaks(#[trigger] tail[k], at),
    ensures
        split(s + tail, at) == split(s, at).drop_last().push(split(s, at).last() + tail),
    decreases tail.len(),
{
    law_split_parts_are_unbroken(s, at);
    if tail.len() == 0 {
        assert(s + tail =~= s);
        assert(split(s, at).last() + tail =~= split(s, at).last());
        assert(split(s, at).drop_last().push(split(s, at).last()) =~= split(s, at));
    } else {
        lemma_split_unbroken_tail(s, tail.drop_last(), at);
        assert((s + tail).drop_last() =~= s + tail.drop_last());
        let before = split(s + tail.drop_last(), at);
        assert(before.drop_last() =~= split(s, at).drop_last());
        assert((split(s, at).last() + tail.drop_last()).push(tail.last()) =~= split(s, at).last() + tail);
    }
}

/// Splitting gives back the parts that were joined, where there is one and none of them holds a
/// character that breaks a text.
pub proof fn law_split_undoes_join(parts: Seq<Text>, mark: char, at: Option<char>)
    requires
        parts.len() > 0,
        breaks(mark, at),
        forall|i: int, k: int|
            0 <= i < parts.len() && 0 <= k < parts[i].len() ==> !breaks(#[trigger] parts[i][k], at),
    ensures
        split(joined(parts, seq![mark]), at) == parts,
    decreases parts.len(),
{
    let last = parts.last();
    assert forall|k: int| 0 <= k < last.len() implies !breaks(#[trigger] last[k], at) by {
        assert(!breaks(parts[parts.len() - 1][k], at));
    }
    if parts.len() == 1 {
        lemma_split_unbroken_tail(Seq::empty(), last, at);
        assert(Seq::<char>::empty() + last =~= last);
        assert(split(Seq::empty(), at).drop_last().push(last) =~= parts);
    } else {
        let front = parts.drop_last();
        assert forall|i: int, k: int| 0 <= i < front.len() && 0 <= k < front[i].len() implies !breaks(
            #[trigger] front[i][k],
            at,
        ) by {
            assert(!breaks(parts[i][k], at));
        }
        law_split_undoes_join(front, mark, at);
        let start = joined(front, seq![mark]) + seq![mark];
        assert(start.drop_last() =~= joined(front, seq![mark]));
        assert(split(start, at) =~= front.push(Seq::empty()));
        lemma_split_unbroken_tail(start, last, at);
        assert(Seq::<char>::empty() + last =~= last);
        assert(split(start + last, at) =~= parts);
    }
}

/// The parts that hold something are as many at most, and each is one of the parts.
pub proof fn lemma_filled(parts: Seq<Text>)
    ensures
        filled(parts).len() <= parts.len(),
        forall|i: int|
            0 <= i < filled(parts).len() ==> (#[trigger] filled(parts)[i]).len() > 0 && parts.contains(
                filled(parts)[i],
            ),
        (forall|i: int| 0 <= i < parts.len() ==> (#[trigger] parts[i]).len() > 0) ==> filled(parts) == parts,
    decreases parts.len(),
{
    if parts.len() > 0 {
        let front = parts.drop_last();
        lemma_filled(front);
        assert forall|i: int| 0 <= i < filled(parts).len() implies (#[trigger] filled(parts)[i]).len() > 0
            && parts.contains(filled(parts)[i]) by {
            if i < filled(front).len() {
                let part = filled(front)[i];
                let k = choose|k: int| 0 <= k < front.len() && front[k] == part;
                assert(parts[k] == part);
            } else {
                assert(parts[parts.len() - 1] == filled(parts)[i]);
            }
        }
        if forall|i: int| 0 <= i < parts.len() ==> (#[trigger] parts[i]).len() > 0 {
            assert forall|i: int| 0 <= i < front.len() implies (#[trigger] front[i]).len() > 0 by {
                assert(parts[i].len() > 0);
            }
            assert(parts[parts.len() - 1].len() > 0);
            assert(front.push(parts.last()) =~= parts);
        }
    }
}

/// The characters of a text.
pub fn chars_of(text: &str) -> (chars: Vec<char>)
    ensures
        chars@ == text@,
{
    let mut chars: Vec<char> = Vec::new();
    for c in iter: text.chars()
        invariant
            iter.seq() == text@,
            chars@ == text@.take(iter.index() as int),
    {
        chars.push(c);
    }
    chars
}

/// The text that characters `from..to` spell.
pub fn spelled(chars: &Vec<char>, from: usize, to: usize) -> (text: String)
    requires
        from <= to <= chars@.len(),
    ensures
        text@ == chars@.subrange(from as int, to as int),
{
    let mut text = String::new();
    let mut i: usize = from;
    while i < to
        invariant
            from <= i <= to <= chars@.len(),
            text@ == chars@.subrange(from as int, i as int),
        decreases to - i,
    {
        text.push(chars[i]);
        i = i + 1;
        assert(text@ =~= chars@.subrange(from as int, i as int));
    }
    text
}

/// The parts of a text between the characters that break it.
pub fn split_text(text: &str, at: Option<char>) -> (parts: Vec<String>)
    ensures
        parts.deep_view() == split(text@, at),
        parts@.len() >= 1,
{
    let chars = chars_of(text);
    let mut parts: Vec<String> = Vec::new();
    let mut current = String::new();
    let mut i: usize = 0;
    assert(chars@.take(0) =~= Seq::<char>::empty());
    assert(parts.deep_view().push(current@) =~= split(chars@.take(0), at));
    while i < chars.len()
        invariant
            i <= chars@.len(),
            parts.deep_view().push(current@) == split(chars@.take(i as int), at),
        decreases chars@.len() - i,
    {
        let c = chars[i];
        let ends_part = match at {
            Some(mark) => c == mark,
            None => white(c),
        };
        let ghost before = chars@.take(i as int);
        assert(chars@.take(i as int + 1).drop_last() =~= before);
        let ghost old_parts = parts.deep_view();
        let ghost old_current = current@;
        assert(split(before, at).drop_last() =~= old_parts);
        if ends_part {
            parts.push(current);
            current = String::new();
            assert(parts.deep_view() =~= old_parts.push(old_current));
        } else {
            current.push(c);
        }
        assert(parts.deep_view().push(current@) =~= split(chars@.take(i as int + 1), at));
        i = i + 1;
    }
    let ghost old_parts = parts.deep_view();
    let ghost last = current@;
    parts.push(current);
    assert(parts.deep_view() =~= old_parts.push(last));
    assert(chars@.take(i as int) =~= text@);
    parts
}

/// The parts of a text that hold something.
pub fn split_filled(text: &str, at: Option<char>) -> (parts: Vec<String>)
    ensures
        parts.deep_view() == filled(split(text@, at)),
{
    let all = split_text(text, at);
    let ghost whole = all.deep_view();
    let mut parts: Vec<String> = Vec::new();
    let mut i: usize = 0;
    assert(parts.deep_view() =~= filled(whole.take(0)));
    while i < all.len()
        invariant
            i <= all@.len(),
            whole == all.deep_view(),
            parts.deep_view() == filled(whole.take(i as int)),
        decreases all@.len() - i,
    {
        assert(whole.take(i as int + 1).drop_last() =~= whole.take(i as int));
        assert(whole[i as int] == all@[i as int]@);
        let ghost old_parts = parts.deep_view();
        if !all[i].as_str().is_empty() {
            parts.push(all[i].clone());
            assert(parts.deep_view() =~= old_parts.push(whole[i as int]));
        }
        i = i + 1;
    }
    assert(whole.take(i as int) =~= whole);
    parts
}

/// The parts one after the other, with `mark` between each two.
pub fn join_text(parts: &Vec<String>, mark: &str) -> (text: String)
    ensures
        text@ == joined(parts.deep_view(), mark@),
{
    let ghost whole = parts.deep_view();
    let mut text = String::new();
    let mut i: usize = 0;
    assert(text@ =~= joined(whole.take(0), mark@));
    while i < parts.len()
        invariant
            i <= parts@.len(),
            whole == parts.deep_view(),
            text@ == joined(whole.take(i as int), mark@),
        decreases parts@.len() - i,
    {
        assert(whole.take(i as int + 1).drop_last() =~= whole.take(i as int));
        assert(whole[i as int] == parts@[i as int]@);
        if i > 0 {
            text.append(mark);
        }
        text.append(parts[i].as_str());
        assert(text@ =~= joined(whole.take(i as int + 1), mark@));
        i = i + 1;
    }
    assert(whole.take(i as int) =~= whole);
    text
}

/// What stands before and after the last `c`.
pub fn split_last(text: &str, c: char) -> (parts: Option<(String, String)>)
    ensures
        parts.deep_view() == split_at_last(text@, c),
{
    let chars = chars_of(text);
    let mut i: usize = chars.len();
    proof {
        lemma_last_position(text@, c);
    }
    while i > 0
        invariant
            i <= chars@.len(),
            chars@ == text@,
            -1 <= last_position(text@, c) < text@.len(),
            last_position(text@, c) >= 0 ==> text@[last_position(text@, c)] == c,
            forall|k: int| last_position(text@, c) < k < text@.len() ==> text@[k] != c,
            forall|k: int| i <= k < text@.len() ==> text@[k] != c,
        decreases i,
    {
        if chars[i - 1] == c {
            assert(last_position(text@, c) == i - 1);
            return Some((spelled(&chars, 0, i - 1), spelled(&chars, i, chars.len())));
        }
        i = i - 1;
    }
    None
}

/// What stands after the last `c`, the whole text where there is none.
pub fn tail_after(text: &str, c: char) -> (tail: String)
    ensures
        tail@ == after_last(text@, c),
{
    match split_last(text, c) {
        Some((_, tail)) => tail,
        None => {
            proof {
                lemma_last_position(text@, c);
                assert(text@.subrange(0, text@.len() as int) =~= text@);
            }
            text.to_owned()
        },
    }
}

proof fn lemma_trims(s: Text, from: int, to: int)
    requires
        0 <= from <= to <= s.len(),
    ensures
        from < to && is_white(s[from]) ==> trimmed_start(s.subrange(from, to)) == trimmed_start(s.subrange(from + 1, to)),
        from < to && is_white(s[to - 1]) ==> trimmed_end(s.subrange(from, to)) == trimmed_end(s.subrange(from, to - 1)),
{
    if from < to {
        assert(s.subrange(from, to).drop_first() =~= s.subrange(from + 1, to));
        assert(s.subrange(from, to).drop_last() =~= s.subrange(from, to - 1));
    }
}

/// The text without white space at either end.
pub fn trim_text(text: &str) -> (r: String)
    ensures
        r@ == trimmed(text@),
{
    let chars = chars_of(text);
    let mut from: usize = 0;
    assert(chars@.subrange(0, chars@.len() as int) =~= text@);
    while from < chars.len() && white(chars[from])
        invariant
            from <= chars@.len(),
            trimmed_start(chars@.subrange(from as int, chars@.len() as int)) == trimmed_start(text@),
        decreases chars@.len() - from,
    {
        proof {
            lemma_trims(chars@, from as int, chars@.len() as int);
        }
        from = from + 1;
    }
    let mut to: usize = chars.len();
    while from < to && white(chars[to - 1])
        invariant
            from <= to <= chars@.len(),
            trimmed_end(chars@.subrange(from as int, to as int)) == trimmed(text@),
        decreases to,
    {
        proof {
            lemma_trims(chars@, from as int, to as int);
        }
        to = to - 1;
    }
    spelled(&chars, from, to)
}

/// Whether the text holds `c`.
pub fn has_char(text: &str, c: char) -> (r: bool)
    ensures
        r == text@.contains(c),
{
    let chars = chars_of(text);
    let mut i: usize = 0;
    while i < chars.len()
        invariant
            i <= chars@.len(),
            chars@ == text@,
            forall|k: int| 0 <= k < i ==> text@[k] != c,
        decreases chars@.len() - i,
    {
        if chars[i] == c {
            assert(text@[i as int] == c);
            return true;
        }
        i = i + 1;
    }
    false
}

/// Whether the text starts with `head`.
pub fn starts_with(text: &str, head: &str) -> (r: bool)
    ensures
        r == begins(text@, head@),
{
    let chars = chars_of(text);
    let wanted = chars_of(head);
    if wanted.len() > chars.len() {
        return false;
    }
    let start = spelled(&chars, 0, wanted.len());
    same(start.as_str(), head)
}

/// The text without `tail` at its end, where it ends so.
pub fn without_suffix(text: &str, tail: &str) -> (r: Option<String>)
    ensures
        r.deep_view() == (if ends(text@, tail@) {
            Some(text@.subrange(0, text@.len() - tail@.len()))
        } else {
            None
        }),
{
    let chars = chars_of(text);
    let wanted = chars_of(tail);
    if wanted.len() > chars.len() {
        return None;
    }
    let cut = chars.len() - wanted.len();
    let end = spelled(&chars, cut, chars.len());
    if same(end.as_str(), tail) {
        Some(spelled(&chars, 0, cut))
    } else {
        None
    }
}

/// Two texts, one after the other.
pub fn cat(a: &str, b: &str) -> (r: String)
    ensures
        r@ == a@ + b@,
{
    let mut r = a.to_owned();
    r.append(b);
    r
}

/// Three texts, one after the other.
pub fn cat3(a: &str, b: &str, c: &str) -> (r: String)
    ensures
        r@ == a@ + b@ + c@,
{
    let mut r = cat(a, b);
    r.append(c);
    r
}

} // verus!
