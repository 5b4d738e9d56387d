//! Stable sorting by a key, and the keys that order texts and paths.
use vstd::prelude::*;

use crate::text::chars_of;
use crate::text::same;
use crate::text::Text;

verus! {

/// What an item is ordered by: a sequence of numbers, compared from the front.
pub type Key = Seq<u64>;

/// The order of keys: the first difference decides, and a key comes before its continuations.
pub open spec fn key_le(a: Key, b: Key) -> bool
    decreases a.len(),
{
    if a.len() == 0 {
        true
    } else if b.len() == 0 {
        false
    } else if a[0] == b[0] {
        key_le(a.drop_first(), b.drop_first())
    } else {
        a[0] < b[0]
    }
}

/// `x` put before the first item that does not come before it.
pub open spec fn placed<T>(x: T, items: Seq<T>, key: spec_fn(T) -> Key) -> Seq<T>
    decreases items.len(),
{
    if items.len() == 0 || key_le(key(x), key(items[0])) {
        seq![x] + items
    } else {
        seq![items[0]] + placed(x, items.drop_first(), key)
    }
}

/// The items in the order of their keys; items with equal keys keep their order.
pub open spec fn sorted<T>(items: Seq<T>, key: spec_fn(T) -> Key) -> Seq<T>
    decreases items.len(),
{
    if items.len() == 0 {
        items
    } else {
        placed(items[0], sorted(items.drop_first(), key), key)
    }
}

/// Every key is at most itself.
pub proof fn law_key_order_is_reflexive(a: Key)
    ensures
        key_le(a, a),
    decreases a.len(),
{
    if a.len() > 0 {
        law_key_order_is_reflexive(a.drop_first());
    }
}

/// Of two keys, one is at most the other.
pub proof fn law_key_order_is_total(a: Key, b: Key)
    ensures
        key_le(a, b) || key_le(b, a),
    decreases a.len(),
{
    if a.len() > 0 && b.len() > 0 {
        law_key_order_is_total(a.drop_first(), b.drop_first());
    }
}

/// Two keys that are each at most the other are the same key.
pub proof fn law_key_order_is_antisymmetric(a: Key, b: Key)
    requires
        key_le(a, b),
        key_le(b, a),
    ensures
        a == b,
    decreases a.len(),
{
    if a.len() > 0 && b.len() > 0 {
        law_key_order_is_antisymmetric(a.drop_first(), b.drop_first());
        assert(a =~= seq![a[0]] + a.drop_first());
        assert(b =~= seq![b[0]] + b.drop_first());
    } else {
        assert(a =~= b);
    }
}

/// The order of keys carries over from one to the next.
pub proof fn law_key_order_is_transitive(a: Key, b: Key, c: Key)
    requires
        key_le(a, b),
        key_le(b, c),
    ensures
        key_le(a, c),
    decreases a.len(),
{
    if a.len() > 0 && b.len() > 0 && c.len() > 0 && a[0] == b[0] && b[0] == c[0] {
        law_key_order_is_transitive(a.drop_first(), b.drop_first(), c.drop_first());
    }
}

/// Whether no item comes before one that stands ahead of it.
pub open spec fn in_order<T>(items: Seq<T>, key: spec_fn(T) -> Key) -> bool {
    forall|i: int, j: int|
        0 <= i <= j < items.len() ==> key_le(#[trigger] key(items[i]), #[trigger] key(items[j]))
}

proof fn lemma_placed<T>(x: T, items: Seq<T>, key: spec_fn(T) -> Key)
    requires
        in_order(items, key),
    ensures
        in_order(placed(x, items, key), key),
        placed(x, items, key).len() == items.len() + 1,
        placed(x, items, key).to_multiset() == items.to_multiset().insert(x),
        forall|y: T| #[trigger] placed(x, items, key).contains(y) ==> y == x || items.contains(y),
    decreases items.len(),
{
    let out = placed(x, items, key);
    vstd::seq_lib::lemma_multiset_commutative(seq![x], items);
    seq![x].to_multiset_ensures();
    items.to_multiset_ensures();
    assert(seq![x] =~= Seq::<T>::empty().push(x));
    Seq::<T>::empty().to_multiset_ensures();
    assert((seq![x] + items).to_multiset() =~= items.to_multiset().insert(x));
    if items.len() == 0 || key_le(key(x), key(items[0])) {
        law_key_order_is_reflexive(key(x));
        assert forall|i: int, j: int| 0 <= i <= j < out.len() implies key_le(
            #[trigger] key(out[i]),
            #[trigger] key(out[j]),
        ) by {
            if i == 0 && j > 0 {
                assert(key_le(key(items[0]), key(items[j - 1])));
                law_key_order_is_transitive(key(x), key(items[0]), key(items[j - 1]));
            } else if i > 0 {
                assert(key_le(key(items[i - 1]), key(items[j - 1])));
            }
        }
        assert forall|y: T| #[trigger] out.contains(y) implies y == x || items.contains(y) by {
            let k = choose|k: int| 0 <= k < out.len() && out[k] == y;
            if k > 0 {
                assert(items[k - 1] == y);
            }
        }
    } else {
        let rest = items.drop_first();
        assert forall|i: int, j: int| 0 <= i <= j < rest.len() implies key_le(
            #[trigger] key(rest[i]),
            #[trigger] key(rest[j]),
        ) by {
            assert(key_le(key(items[i + 1]), key(items[j + 1])));
        }
        lemma_placed(x, rest, key);
        let tail = placed(x, rest, key);
        law_key_order_is_total(key(x), key(items[0]));
        law_key_order_is_reflexive(key(items[0]));
        assert forall|i: int, j: int| 0 <= i <= j < out.len() implies key_le(
            #[trigger] key(out[i]),
            #[trigger] key(out[j]),
        ) by {
            if i == 0 && j > 0 {
                assert(tail.contains(tail[j - 1]));
                if tail[j - 1] != x {
                    let k = choose|k: int| 0 <= k < rest.len() && rest[k] == tail[j - 1];
                    assert(key_le(key(items[0]), key(items[k + 1])));
                }
            } else if i > 0 {
                assert(key_le(key(tail[i - 1]), key(tail[j - 1])));
            }
        }
        assert forall|y: T| #[trigger] out.contains(y) implies y == x || items.contains(y) by {
            let k = choose|k: int| 0 <= k < out.len() && out[k] == y;
            if k == 0 {
                assert(items[0] == y);
            } else {
                assert(tail.contains(y)) by {
                    assert(tail[k - 1] == y);
                }
                if y != x {
                    let m = choose|m: int| 0 <= m < rest.len() && rest[m] == y;
                    assert(items[m + 1] == y);
                }
            }
        }
        vstd::seq_lib::lemma_multiset_commutative(seq![items[0]], tail);
        vstd::seq_lib::lemma_multiset_commutative(seq![items[0]], rest);
        assert(seq![items[0]] + rest =~= items);
        assert(out.to_multiset() =~= items.to_multiset().insert(x));
    }
}

/// Sorting puts the items in the order of their keys and keeps each of them.
pub proof fn law_sorted_is_an_ordered_rearrangement<T>(items: Seq<T>, key: spec_fn(T) -> Key)
    ensures
        in_order(sorted(items, key), key),
        sorted(items, key).len() == items.len(),
        sorted(items, key).to_multiset() == items.to_multiset(),
    decreases items.len(),
{
    if items.len() > 0 {
        let rest = items.drop_first();
        law_sorted_is_an_ordered_rearrangement(rest, key);
        lemma_placed(items[0], sorted(rest, key), key);
        vstd::seq_lib::lemma_multiset_commutative(seq![items[0]], rest);
        assert(seq![items[0]] =~= Seq::<T>::empty().push(items[0]));
        Seq::<T>::empty().to_multiset_ensures();
        assert(seq![items[0]] + rest =~= items);
        assert(sorted(items, key).to_multiset() =~= items.to_multiset());
    }
}

/// Sorting leaves out nothing and adds nothing.
pub proof fn lemma_sorted_contains<T>(items: Seq<T>, key: spec_fn(T) -> Key, x: T)
    ensures
        sorted(items, key).contains(x) <==> items.contains(x),
{
    law_sorted_is_an_ordered_rearrangement(items, key);
    items.to_multiset_ensures();
    sorted(items, key).to_multiset_ensures();
    assert(items.contains(x) <==> items.to_multiset().count(x) > 0);
    assert(sorted(items, key).contains(x) <==> sorted(items, key).to_multiset().count(x) > 0);
}

proof fn lemma_placed_is_stable<T>(x: T, items: Seq<T>, key: spec_fn(T) -> Key, k: Key)
    ensures
        placed(x, items, key).filter(|y: T| key(y) == k) == (if key(x) == k {
            seq![x] + items.filter(|y: T| key(y) == k)
        } else {
            items.filter(|y: T| key(y) == k)
        }),
    decreases items.len(),
{
    let p = |y: T| key(y) == k;
    items.lemma_filter_prepend(x, p);
    if items.len() == 0 || key_le(key(x), key(items[0])) {
    } else {
        let rest = items.drop_first();
        lemma_placed_is_stable(x, rest, key, k);
        placed(x, rest, key).lemma_filter_prepend(items[0], p);
        rest.lemma_filter_prepend(items[0], p);
        assert(seq![items[0]] + rest =~= items);
        law_key_order_is_reflexive(key(x));
        if p(x) && p(items[0]) {
            assert(false);
        }
    }
}

/// Items with the same key keep their order.
pub proof fn law_sorting_is_stable<T>(items: Seq<T>, key: spec_fn(T) -> Key, k: Key)
    ensures
        sorted(items, key).filter(|y: T| key(y) == k) == items.filter(|y: T| key(y) == k),
    decreases items.len(),
{
    if items.len() > 0 {
        let p = |y: T| key(y) == k;
        let rest = items.drop_first();
        law_sorting_is_stable(rest, key, k);
        lemma_placed_is_stable(items[0], sorted(rest, key), key, k);
        rest.lemma_filter_prepend(items[0], p);
        assert(seq![items[0]] + rest =~= items);
    }
}

/// Whether key `a` is at most key `b`.
fn keys_in_order(a: &Vec<u64>, b: &Vec<u64>) -> (r: bool)
    ensures
        r == key_le(a@, b@),
{
    let mut i: usize = 0;
    assert(a@.skip(0) =~= a@);
    assert(b@.skip(0) =~= b@);
    while i < a.len() && i < b.len()
        invariant
            i <= a@.len(),
            i <= b@.len(),
            key_le(a@, b@) == key_le(a@.skip(i as int), b@.skip(i as int)),
        decreases a@.len() - i,
    {
        assert(a@.skip(i as int).drop_first() =~= a@.skip(i as int + 1));
        assert(b@.skip(i as int).drop_first() =~= b@.skip(i as int + 1));
        if a[i] != b[i] {
            return a[i] < b[i];
        }
        i = i + 1;
    }
    i == a.len()
}

/// Sorts the items by the keys that stand at the same places. `key` names what the keys are of.
pub(crate) fn sort_keyed<T: DeepView>(
    items: Vec<T>,
    keys: Vec<Vec<u64>>,
    Ghost(key): Ghost<spec_fn(T::V) -> Key>,
) -> (out: Vec<T>)
    requires
        keys@.len() == items@.len(),
        forall|i: int| 0 <= i < items@.len() ==> (#[trigger] keys@[i])@ == key(items@[i].deep_view()),
    ensures
        out.deep_view() == sorted(items.deep_view(), key),
{
    let ghost whole = items.deep_view();
    let ghost all_items = items@;
    let ghost all_keys = keys@;
    let mut items = items;
    let mut keys = keys;
    let mut out: Vec<T> = Vec::new();
    let mut out_keys: Vec<Vec<u64>> = Vec::new();
    assert(whole.skip(whole.len() as int) =~= Seq::<T::V>::empty());
    assert(out.deep_view() =~= sorted(whole.skip(whole.len() as int), key));
    while items.len() > 0
        invariant
            items@.len() == keys@.len() <= all_items.len(),
            all_items.len() == all_keys.len() == whole.len(),
            items@ == all_items.take(items@.len() as int),
            keys@ == all_keys.take(items@.len() as int),
            forall|i: int| 0 <= i < all_items.len() ==> #[trigger] whole[i] == all_items[i].deep_view(),
            forall|i: int|
                0 <= i < all_items.len() ==> (#[trigger] all_keys[i])@ == key(
                    all_items[i].deep_view(),
                ),
            out@.len() == out_keys@.len(),
            forall|i: int|
                0 <= i < out@.len() ==> (#[trigger] out_keys@[i])@ == key(out@[i].deep_view()),
            out.deep_view() == sorted(whole.skip(items@.len() as int), key),
        decreases items@.len(),
    {
        let ghost n = items@.len() - 1;
        let item = items.pop().unwrap();
        let item_key = keys.pop().unwrap();
        assert(item == all_items[n]);
        assert(item_key == all_keys[n]);
        assert(whole[n] == item.deep_view());
        assert(items@ =~= all_items.take(n));
        assert(keys@ =~= all_keys.take(n));
        let ghost before = out.deep_view();
        assert(whole.skip(n).drop_first() =~= whole.skip(n + 1));
        assert(whole.skip(n)[0] == whole[n]);
        let mut p: usize = 0;
        assert(before.skip(0) =~= before);
        assert(before.take(0) + placed(whole[n], before.skip(0), key) =~= placed(
            whole[n],
            before,
            key,
        ));
        while p < out.len() && !keys_in_order(&item_key, &out_keys[p])
            invariant
                p <= out@.len(),
                out@.len() == out_keys@.len(),
                out.deep_view() == before,
                item_key@ == key(whole[n]),
                forall|i: int|
                    0 <= i < out@.len() ==> (#[trigger] out_keys@[i])@ == key(
                        out@[i].deep_view(),
                    ),
                before.take(p as int) + placed(whole[n], before.skip(p as int), key) == placed(
                    whole[n],
                    before,
                    key,
                ),
            decreases out@.len() - p,
        {
            assert(out_keys@[p as int]@ == key(before[p as int]));
            assert(before.skip(p as int)[0] == before[p as int]);
            assert(before.skip(p as int).drop_first() =~= before.skip(p as int + 1));
            assert(before.take(p as int + 1) + placed(whole[n], before.skip(p as int + 1), key)
                =~= before.take(p as int) + (seq![before[p as int]] + placed(
                whole[n],
                before.skip(p as int + 1),
                key,
            )));
            p = p + 1;
        }
        proof {
            if p < out@.len() {
                assert(out_keys@[p as int]@ == key(before[p as int]));
                assert(before.skip(p as int)[0] == before[p as int]);
            }
            assert(placed(whole[n], before.skip(p as int), key) =~= seq![whole[n]] + before.skip(
                p as int,
            ));
        }
        out.insert(p, item);
        out_keys.insert(p, item_key);
        assert(out.deep_view() =~= before.take(p as int) + (seq![whole[n]] + before.skip(p as int)));
        assert forall|i: int| 0 <= i < out@.len() implies (#[trigger] out_keys@[i])@ == key(
            out@[i].deep_view(),
        ) by {}
    }
    assert(whole.skip(0) =~= whole);
    out
}

/// The number that orders one character of a text.
pub open spec fn text_code(c: char) -> u64 {
    (c as u32 + 1) as u64
}

/// The numbers that order a text: its characters.
pub open spec fn text_key(s: Text) -> Key {
    s.map_values(|c: char| text_code(c))
}

/// The number that orders one character of a name in a path.
pub open spec fn name_code(c: char) -> u64 {
    (c as u32 + 4) as u64
}

/// The numbers that order a name in a path: its characters.
pub open spec fn name_key(s: Text) -> Key {
    s.map_values(|c: char| name_code(c))
}

/// Where the kinds of components of a path stand in their order: the root, the directory itself, the
/// one above it, and names.
pub open spec fn component_rank(part: Text) -> int {
    if part == "/"@ {
        0
    } else if part == "."@ {
        1
    } else if part == ".."@ {
        2
    } else {
        3
    }
}

/// The numbers that order a component of a path. Those of a name are above all others.
pub open spec fn component_key(part: Text) -> Key {
    if part == "/"@ {
        Seq::empty()
    } else if part == "."@ {
        seq![2]
    } else if part == ".."@ {
        seq![3]
    } else {
        name_key(part)
    }
}

/// The numbers that order a path: those of its components, each behind a number below all of them,
/// so that paths compare component by component.
pub open spec fn components_key(parts: Seq<Text>) -> Key
    decreases parts.len(),
{
    if parts.len() == 0 {
        Seq::empty()
    } else {
        components_key(parts.drop_last()) + (seq![1u64] + component_key(parts.last()))
    }
}

/// The numbers that order a text.
pub fn key_of_text(text: &str) -> (key: Vec<u64>)
    ensures
        key@ == text_key(text@),
{
    let chars = chars_of(text);
    let mut key: Vec<u64> = Vec::new();
    let mut i: usize = 0;
    while i < chars.len()
        invariant
            i <= chars@.len(),
            chars@ == text@,
            key@ == text_key(text@).take(i as int),
        decreases chars@.len() - i,
    {
        key.push(chars[i] as u32 as u64 + 1);
        i = i + 1;
        assert(key@ =~= text_key(text@).take(i as int));
    }
    assert(key@ =~= text_key(text@));
    key
}

/// The numbers that order a path, given its components.
pub fn key_of_components(parts: &Vec<String>) -> (key: Vec<u64>)
    ensures
        key@ == components_key(parts.deep_view()),
{
    let ghost all = parts.deep_view();
    let mut key: Vec<u64> = Vec::new();
    let mut i: usize = 0;
    assert(key@ =~= components_key(all.take(0)));
    while i < parts.len()
        invariant
            i <= parts@.len(),
            all == parts.deep_view(),
            key@ == components_key(all.take(i as int)),
        decreases parts@.len() - i,
    {
        assert(all.take(i as int + 1).drop_last() =~= all.take(i as int));
        assert(all.take(i as int + 1).last() == parts@[i as int]@);
        let part = parts[i].as_str();
        key.push(1);
        let ghost start = key@;
        if same(part, "/") {
            assert(start =~= start + component_key(part@));
        } else if same(part, ".") {
            key.push(2);
        } else if same(part, "..") {
            key.push(3);
        } else {
            let chars = chars_of(part);
            let mut k: usize = 0;
            assert(start =~= start + name_key(part@).take(0));
            while k < chars.len()
                invariant
                    k <= chars@.len(),
                    chars@ == part@,
                    key@ == start + name_key(part@).take(k as int),
                decreases chars@.len() - k,
            {
                key.push(chars[k] as u32 as u64 + 4);
                k = k + 1;
                assert(key@ =~= start + name_key(part@).take(k as int));
            }
            assert(name_key(part@).take(k as int) =~= name_key(part@));
        }
        assert(key@ =~= components_key(all.take(i as int)) + (seq![1u64] + component_key(part@)));
        i = i + 1;
    }
    assert(all.take(i as int) =~= all);
    key
}

/// Whether all numbers of a key are positive.
pub open spec fn positive(key: Key) -> bool {
    forall|i: int| 0 <= i < key.len() ==> #[trigger] key[i] > 0
}

/// Of two keys made of a part without zeros, a zero and a rest, the first parts decide; where they
/// are the same, the rests do.
pub proof fn law_first_part_decides(p: Key, q: Key, x: Key, y: Key)
    requires
        positive(p),
        positive(q),
    ensures
        key_le(p.push(0) + x, q.push(0) + y) == (if p == q {
            key_le(x, y)
        } else {
            key_le(p, q)
        }),
    decreases p.len(),
{
    let a = p.push(0) + x;
    let b = q.push(0) + y;
    if p.len() > 0 && q.len() > 0 {
        let rest_p = p.drop_first();
        let rest_q = q.drop_first();
        assert(a.drop_first() =~= rest_p.push(0) + x);
        assert(b.drop_first() =~= rest_q.push(0) + y);
        if p[0] == q[0] {
            assert forall|i: int| 0 <= i < rest_p.len() implies #[trigger] rest_p[i] > 0 by {
                assert(p[i + 1] > 0);
            }
            assert forall|i: int| 0 <= i < rest_q.len() implies #[trigger] rest_q[i] > 0 by {
                assert(q[i + 1] > 0);
            }
            law_first_part_decides(rest_p, rest_q, x, y);
            assert(p =~= seq![p[0]] + rest_p);
            assert(q =~= seq![q[0]] + rest_q);
        }
    } else if p.len() == 0 && q.len() == 0 {
        assert(p =~= q);
        assert(a.drop_first() =~= x);
        assert(b.drop_first() =~= y);
    } else if p.len() == 0 {
        assert(q[0] > 0);
    } else {
        assert(p[0] > 0);
    }
}

/// The keys of paths hold no zero.
pub proof fn lemma_path_keys_are_positive(parts: Seq<Text>)
    ensures
        positive(components_key(parts)),
    decreases parts.len(),
{
    if parts.len() > 0 {
        lemma_path_keys_are_positive(parts.drop_last());
    }
}

/// Characters are ordered alike in texts and in the names of paths.
proof fn lemma_codes(a: char, b: char)
    ensures
        text_code(a) == text_code(b) ==> a == b,
        name_code(a) == name_code(b) ==> a == b,
        name_code(a) < name_code(b) <==> text_code(a) < text_code(b),
        name_code(a) > 3,
{
    assert((a as u32) as int == a as int);
    assert((b as u32) as int == b as int);
}

/// Two texts with the same key are the same.
pub proof fn law_text_keys_tell_texts_apart(a: Text, b: Text)
    requires
        text_key(a) == text_key(b),
    ensures
        a == b,
{
    assert(text_key(a).len() == a.len());
    assert(text_key(b).len() == b.len());
    assert forall|i: int| 0 <= i < a.len() implies a[i] == b[i] by {
        lemma_codes(a[i], b[i]);
        assert(text_key(a)[i] == text_code(a[i]));
        assert(text_key(b)[i] == text_code(b[i]));
    }
    assert(a =~= b);
}

/// The order of components: by their kinds, and names by their characters.
pub open spec fn component_le(a: Text, b: Text) -> bool {
    if component_rank(a) == component_rank(b) {
        key_le(text_key(a), text_key(b))
    } else {
        component_rank(a) < component_rank(b)
    }
}

/// The order of paths by their components: the first ones that differ decide; and a path comes
/// before those below it.
pub open spec fn components_le(a: Seq<Text>, b: Seq<Text>) -> bool
    decreases a.len(),
{
    if a.len() == 0 {
        true
    } else if b.len() == 0 {
        false
    } else if a[0] == b[0] {
        components_le(a.drop_first(), b.drop_first())
    } else {
        component_le(a[0], b[0])
    }
}

/// Whether no component is empty.
pub open spec fn all_filled(parts: Seq<Text>) -> bool {
    forall|i: int| 0 <= i < parts.len() ==> (#[trigger] parts[i]).len() > 0
}

/// Whether a key is that of the end of a path, or of what follows a component.
spec fn follows_component(key: Key) -> bool {
    key.len() == 0 || key[0] == 1
}

proof fn lemma_name_decides(s: Text, t: Text, x: Key, y: Key)
    requires
        follows_component(x),
        follows_component(y),
    ensures
        key_le(name_key(s) + x, name_key(t) + y) == (if s == t {
            key_le(x, y)
        } else {
            key_le(text_key(s), text_key(t))
        }),
    decreases s.len(),
{
    let a = name_key(s) + x;
    let b = name_key(t) + y;
    if s.len() > 0 {
        lemma_codes(s[0], s[0]);
    }
    if t.len() > 0 {
        lemma_codes(t[0], t[0]);
    }
    if s.len() > 0 && t.len() > 0 {
        lemma_codes(s[0], t[0]);
        assert(a[0] == name_code(s[0]) && b[0] == name_code(t[0]));
        assert(text_key(s)[0] == text_code(s[0]) && text_key(t)[0] == text_code(t[0]));
        let rest_s = s.drop_first();
        let rest_t = t.drop_first();
        assert(a.drop_first() =~= name_key(rest_s) + x);
        assert(b.drop_first() =~= name_key(rest_t) + y);
        assert(text_key(s).drop_first() =~= text_key(rest_s));
        assert(text_key(t).drop_first() =~= text_key(rest_t));
        if s[0] == t[0] {
            lemma_name_decides(rest_s, rest_t, x, y);
            assert(s =~= seq![s[0]] + rest_s);
            assert(t =~= seq![t[0]] + rest_t);
        }
    } else if s.len() == 0 && t.len() == 0 {
        assert(s =~= t);
        assert(a =~= x);
        assert(b =~= y);
    } else if s.len() == 0 {
        assert(a =~= x);
        assert(b[0] == name_code(t[0]));
    } else {
        assert(b =~= y);
        assert(a[0] == name_code(s[0]));
    }
}

proof fn lemma_component_decides(s: Text, t: Text, x: Key, y: Key)
    requires
        s.len() > 0,
        t.len() > 0,
        follows_component(x),
        follows_component(y),
    ensures
        key_le(component_key(s) + x, component_key(t) + y) == (if s == t {
            key_le(x, y)
        } else {
            component_le(s, t)
        }),
{
    reveal_strlit("/");
    reveal_strlit(".");
    reveal_strlit("..");
    let a = component_key(s) + x;
    let b = component_key(t) + y;
    lemma_codes(s[0], t[0]);
    lemma_codes(t[0], s[0]);
    if component_rank(s) == 3 && component_rank(t) == 3 {
        lemma_name_decides(s, t, x, y);
    } else if s == t {
        if s == "/"@ {
            assert(a =~= x && b =~= y);
        } else {
            assert(a.drop_first() =~= x && b.drop_first() =~= y);
        }
    } else {
        if s == "/"@ {
            assert(a =~= x);
        } else if component_rank(s) == 3 {
            assert(a[0] == name_code(s[0]));
        }
        if t == "/"@ {
            assert(b =~= y);
        } else if component_rank(t) == 3 {
            assert(b[0] == name_code(t[0]));
        }
    }
}

proof fn lemma_key_from_front(parts: Seq<Text>)
    requires
        parts.len() > 0,
    ensures
        components_key(parts) == seq![1u64] + (component_key(parts[0]) + components_key(parts.drop_first())),
        follows_component(components_key(parts.drop_first())),
    decreases parts.len(),
{
    if parts.len() == 1 {
        reveal_with_fuel(components_key, 2);
        assert(parts.drop_first() =~= Seq::<Text>::empty());
        assert(parts.drop_last() =~= Seq::<Text>::empty());
        assert(components_key(parts) =~= seq![1u64] + (component_key(parts[0]) + components_key(
            parts.drop_first(),
        )));
    } else {
        lemma_key_from_front(parts.drop_last());
        assert(parts.drop_last().drop_first() =~= parts.drop_first().drop_last());
        assert(parts.drop_first().last() == parts.last());
        assert(components_key(parts) =~= seq![1u64] + (component_key(parts[0]) + components_key(
            parts.drop_first(),
        )));
        lemma_key_from_front(parts.drop_first());
    }
}

/// Paths are ordered component by component.
pub proof fn law_paths_compare_by_components(a: Seq<Text>, b: Seq<Text>)
    requires
        all_filled(a),
        all_filled(b),
    ensures
        key_le(components_key(a), components_key(b)) == components_le(a, b),
    decreases a.len(),
{
    if a.len() > 0 {
        lemma_key_from_front(a);
    }
    if b.len() > 0 {
        lemma_key_from_front(b);
    }
    if a.len() > 0 && b.len() > 0 {
        let x = components_key(a.drop_first());
        let y = components_key(b.drop_first());
        assert(a[0].len() > 0 && b[0].len() > 0);
        assert(components_key(a).drop_first() =~= component_key(a[0]) + x);
        assert(components_key(b).drop_first() =~= component_key(b[0]) + y);
        lemma_component_decides(a[0], b[0], x, y);
        if a[0] == b[0] {
            lemma_rest_is_filled(a);
            lemma_rest_is_filled(b);
            law_paths_compare_by_components(a.drop_first(), b.drop_first());
        }
    }
}

proof fn lemma_rest_is_filled(parts: Seq<Text>)
    requires
        all_filled(parts),
        parts.len() > 0,
    ensures
        all_filled(parts.drop_first()),
{
    let rest = parts.drop_first();
    assert forall|i: int| 0 <= i < rest.len() implies (#[trigger] rest[i]).len() > 0 by {
        assert(parts[i + 1].len() > 0);
    }
}

/// Paths with different components have different keys.
pub proof fn law_path_keys_tell_components_apart(a: Seq<Text>, b: Seq<Text>)
    requires
        all_filled(a),
        all_filled(b),
        components_key(a) == components_key(b),
    ensures
        a == b,
    decreases a.len(),
{
    if a.len() > 0 {
        lemma_key_from_front(a);
    }
    if b.len() > 0 {
        lemma_key_from_front(b);
    }
    if a.len() > 0 && b.len() > 0 {
        let x = components_key(a.drop_first());
        let y = components_key(b.drop_first());
        assert(a[0].len() > 0 && b[0].len() > 0);
        let p = component_key(a[0]) + x;
        let q = component_key(b[0]) + y;
        assert(components_key(a).drop_first() =~= p);
        assert(components_key(b).drop_first() =~= q);
        law_key_order_is_reflexive(p);
        lemma_component_decides(a[0], b[0], x, y);
        lemma_component_decides(b[0], a[0], y, x);
        if a[0] != b[0] {
            law_key_order_is_antisymmetric(text_key(a[0]), text_key(b[0]));
            law_text_keys_tell_texts_apart(a[0], b[0]);
        }
        assert(p.skip(component_key(a[0]).len() as int) =~= x);
        assert(q.skip(component_key(a[0]).len() as int) =~= y);
        lemma_rest_is_filled(a);
        lemma_rest_is_filled(b);
        law_path_keys_tell_components_apart(a.drop_first(), b.drop_first());
        assert(a =~= seq![a[0]] + a.drop_first());
        assert(b =~= seq![b[0]] + b.drop_first());
    } else {
        assert(a =~= b);
    }
}

} // verus!
