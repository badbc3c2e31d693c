//! When two values count as equal, and which of two values comes first.

use crate::float;
use crate::json::{Json, JsonView, Numeral};
use crate::object::{
    distinct_keys, field, float_of, has_key, json_eq, key_at, lookup, number_eq, opt_view, same_json,
    str_of, string_view, well_formed,
};
use crate::text::{
    ascii_lowered, begins_with, chars_of, ends_with, occurs_at, order_texts, same_text, string_of,
    text_order, to_ascii_lower, trim, trimmed,
};
use crate::wire::{bare_text_of, json_to_string};
use vstd::prelude::*;

verus! {

broadcast use crate::json::group_json_views;

pub open spec fn is_hex_digit(c: char) -> bool {
    ||| '0' <= c && c <= '9'
    ||| 'a' <= c && c <= 'f'
    ||| 'A' <= c && c <= 'F'
}

pub open spec fn all_hex(s: Seq<char>) -> bool {
    forall|i: int| 0 <= i < s.len() ==> is_hex_digit(#[trigger] s[i])
}

/// Whether a text is an object id in its long form, `ObjectId("...")` or
/// `ObjectId('...')`.
pub open spec fn is_long_id(t: Seq<char>) -> bool {
    ||| begins_with(t, "ObjectId(\""@) && ends_with(t, "\")"@)
    ||| begins_with(t, "ObjectId('"@) && ends_with(t, "')"@)
}

/// Whether a text has the two ends of the long form with one quotation mark
/// between them, so that the ends overlap.
pub open spec fn is_stump(raw: Seq<char>) -> bool {
    is_long_id(trimmed(raw)) && trimmed(raw).len() < 12
}

/// The object id that a text holds, in small letters: 24 hexadecimal digits,
/// alone or in the long form, with white space around either.
pub open spec fn object_id(raw: Seq<char>) -> Option<Seq<char>> {
    let t = trimmed(raw);
    let inner = if is_long_id(t) {
        t.subrange(10, t.len() - 2)
    } else {
        t
    };
    let id = trimmed(inner);
    if id.len() == 24 && all_hex(id) {
        Some(ascii_lowered(id))
    } else {
        None
    }
}

/// The object id that a value holds: a text, or an object with a text under
/// `$oid`.
pub open spec fn object_id_of(v: JsonView) -> Option<Seq<char>> {
    match v {
        JsonView::String(s) => text_id(s),
        JsonView::Object(_) => match field(v, "$oid"@) {
            Some(x) => match str_of(x) {
                Some(s) => text_id(s),
                None => None,
            },
            None => None,
        },
        _ => None,
    }
}

/// The object id that a text holds; overlapping ends hold none.
pub open spec fn text_id(s: Seq<char>) -> Option<Seq<char>> {
    if is_stump(s) {
        None
    } else {
        object_id(s)
    }
}

/// Whether two values count as equal: as JSON, or because they hold the same
/// object id.
pub open spec fn equivalent(a: JsonView, b: JsonView) -> bool {
    json_eq(a, b) || (object_id_of(a) is Some && object_id_of(a) == object_id_of(b))
}

/// Whether two values count as equal, where either may be missing.
pub open spec fn alike(a: Option<JsonView>, b: Option<JsonView>) -> bool {
    match (a, b) {
        (Some(x), Some(y)) => equivalent(x, y),
        (None, None) => true,
        _ => false,
    }
}

/// Which of two values comes first: -1, 0 or 1.  Numbers go by their size,
/// texts by their characters, and all else by its text.
pub open spec fn value_order(a: JsonView, b: JsonView) -> int {
    if float_of(a) is Some && float_of(b) is Some {
        let x = float::exact(float_of(a)->Some_0);
        let y = float::exact(float_of(b)->Some_0);
        if x < y {
            -1
        } else if x > y {
            1
        } else {
            0
        }
    } else {
        text_order(bare_text_of(a), bare_text_of(b))
    }
}

/// Which of two values comes first, where either may be missing; what is
/// missing comes first.
pub open spec fn order_of(a: Option<JsonView>, b: Option<JsonView>) -> int {
    match (a, b) {
        (None, None) => 0,
        (None, Some(_)) => -1,
        (Some(_), None) => 1,
        (Some(x), Some(y)) => value_order(x, y),
    }
}

fn enclosed(t: &Vec<char>, first: &str, last: &str) -> (r: bool)
    ensures
        r == (begins_with(t@, first@) && ends_with(t@, last@)),
{
    let f = chars_of(first);
    let l = chars_of(last);
    occurs_at(t, &f, 0) && l.len() <= t.len() && occurs_at(t, &l, t.len() - l.len())
}

fn long_id(t: &Vec<char>) -> (r: bool)
    ensures
        r == is_long_id(t@),
{
    enclosed(t, "ObjectId(\"", "\")") || enclosed(t, "ObjectId('", "')")
}

/// Whether a text has the two ends of the long form, overlapping.
pub fn overlapping_id(raw: &str) -> (r: bool)
    ensures
        r == is_stump(raw@),
{
    let t = chars_of(trim(raw).as_str());
    long_id(&t) && t.len() < 12
}

/// The object id that a text holds.
pub fn parse_object_id_text(raw: &str) -> (r: Option<String>)
    requires
        !is_stump(raw@),
    ensures
        string_view(r) == object_id(raw@),
{
    let t = chars_of(trim(raw).as_str());
    let inner = if long_id(&t) {
        string_of(&t, 10, t.len() - 2)
    } else {
        string_of(&t, 0, t.len())
    };
    assert(t@.subrange(0, t@.len() as int) == t@);
    let id = trim(inner.as_str());
    let chars = chars_of(id.as_str());
    if chars.len() != 24 {
        return None;
    }
    let mut i: usize = 0;
    while i < chars.len()
        invariant
            i <= chars@.len(),
            chars@ == id@,
            id@ == trimmed(inner@),
            inner@ == if is_long_id(trimmed(raw@)) {
                trimmed(raw@).subrange(10, trimmed(raw@).len() - 2)
            } else {
                trimmed(raw@)
            },
            forall|j: int| 0 <= j < i ==> is_hex_digit(#[trigger] chars@[j]),
        decreases chars@.len() - i,
    {
        let c = chars[i];
        if !(('0' <= c && c <= '9') || ('a' <= c && c <= 'f') || ('A' <= c && c <= 'F')) {
            assert(!is_hex_digit(chars@[i as int]));
            return None;
        }
        i = i + 1;
    }
    Some(to_ascii_lower(id.as_str()))
}

/// The object id that a value holds.
pub fn value_as_object_id_text(value: &Json) -> (r: Option<String>)
    ensures
        string_view(r) == object_id_of(value@),
{
    let text = match value {
        Json::String(s) => Some(s.as_str()),
        Json::Object(_) => match value.get("$oid") {
            Some(x) => x.as_str(),
            None => None,
        },
        _ => None,
    };
    match text {
        Some(s) => if overlapping_id(s) {
            None
        } else {
            parse_object_id_text(s)
        },
        None => None,
    }
}

/// Whether two values count as equal.
pub fn value_eq(a: Option<&Json>, b: Option<&Json>) -> (r: bool)
    ensures
        r == alike(opt_view(a), opt_view(b)),
{
    match (a, b) {
        (None, None) => true,
        (Some(x), Some(y)) => {
            if same_json(x, y) {
                return true;
            }
            match (value_as_object_id_text(x), value_as_object_id_text(y)) {
                (Some(i), Some(j)) => same_text(i.as_str(), j.as_str()),
                _ => false,
            }
        },
        _ => false,
    }
}

/// Which of two values comes first: -1, 0 or 1.
pub fn compare_values(a: Option<&Json>, b: Option<&Json>) -> (r: i32)
    ensures
        r == order_of(opt_view(a), opt_view(b)),
{
    match (a, b) {
        (None, None) => 0,
        (None, Some(_)) => -1,
        (Some(_), None) => 1,
        (Some(x), Some(y)) => match (x.as_float(), y.as_float()) {
            (Some(m), Some(n)) => if float::less(m, n) {
                -1
            } else if float::less(n, m) {
                1
            } else {
                0
            },
            _ => match (x.as_str(), y.as_str()) {
                (Some(s), Some(t)) => order_texts(s, t),
                _ => order_texts(json_to_string(x).as_str(), json_to_string(y).as_str()),
            },
        },
    }
}

/// Two values compare the same way round from either side.
pub proof fn lemma_order_antisymmetric(a: Option<JsonView>, b: Option<JsonView>)
    ensures
        order_of(a, b) == -order_of(b, a),
        -1 <= order_of(a, b) <= 1,
{
    if let (Some(x), Some(y)) = (a, b) {
        crate::text::lemma_text_order_antisymmetric(bare_text_of(x), bare_text_of(y));
    }
}

/// Among numbers the order is transitive.
pub proof fn lemma_number_order_transitive(a: JsonView, b: JsonView, c: JsonView)
    requires
        float_of(a) is Some,
        float_of(b) is Some,
        float_of(c) is Some,
        value_order(a, b) <= 0,
        value_order(b, c) <= 0,
    ensures
        value_order(a, c) <= 0,
{
}

/// Among texts the order is transitive, and only equal texts compare as equal.
pub proof fn lemma_text_value_order_transitive(a: Seq<char>, b: Seq<char>, c: Seq<char>)
    requires
        value_order(JsonView::String(a), JsonView::String(b)) <= 0,
        value_order(JsonView::String(b), JsonView::String(c)) <= 0,
    ensures
        value_order(JsonView::String(a), JsonView::String(c)) <= 0,
        value_order(JsonView::String(a), JsonView::String(b)) == 0 ==> a == b,
{
    if a != b && b != c {
        crate::text::lemma_text_less_transitive(a, b, c);
        crate::text::lemma_text_order_antisymmetric(a, c);
    }
}

proof fn lemma_number_eq(a: Numeral, b: Numeral, c: Numeral)
    ensures
        number_eq(a, a),
        number_eq(a, b) ==> number_eq(b, a),
        number_eq(a, b) && number_eq(b, c) ==> number_eq(a, c),
{
}

/// Every value is equal to itself.
pub proof fn lemma_json_eq_reflexive(a: JsonView)
    requires
        well_formed(a),
    ensures
        json_eq(a, a),
    decreases a,
{
    match a {
        JsonView::Array(x) => {
            assert forall|i: int| 0 <= i < x.len() implies json_eq(#[trigger] x[i], x[i]) by {
                lemma_json_eq_reflexive(x[i]);
            }
        },
        JsonView::Object(x) => {
            assert forall|i: int| 0 <= i < x.len() implies has_key(x, (#[trigger] x[i]).0)
                && json_eq(x[i].1, lookup(x, x[i].0)->Some_0) by {
                lemma_found(x, i);
                lemma_json_eq_reflexive(x[i].1);
            }
        },
        _ => {},
    }
}

/// Among distinct keys each is found where it stands.
pub proof fn lemma_found(o: Seq<(Seq<char>, JsonView)>, i: int)
    requires
        distinct_keys(o),
        0 <= i < o.len(),
    ensures
        key_at(o, o[i].0) == i,
{
    assert forall|j: int| 0 <= j < i implies (#[trigger] o[j]).0 != o[i].0 by {}
    crate::object::lemma_key_at_is(o, o[i].0, i);
}

/// Equal objects have the same keys.
proof fn lemma_same_keys(x: Seq<(Seq<char>, JsonView)>, y: Seq<(Seq<char>, JsonView)>, j: int)
    requires
        distinct_keys(x),
        distinct_keys(y),
        x.len() == y.len(),
        forall|i: int| 0 <= i < x.len() ==> has_key(y, (#[trigger] x[i]).0),
        0 <= j < y.len(),
    ensures
        has_key(x, y[j].0),
{
    crate::object::lemma_key_at(x, y[j].0);
    if !has_key(x, y[j].0) {
        let kx = x.map_values(|e: (Seq<char>, JsonView)| e.0);
        let ky = y.map_values(|e: (Seq<char>, JsonView)| e.0);
        assert(kx.no_duplicates());
        assert(ky.no_duplicates());
        kx.unique_seq_to_set();
        ky.unique_seq_to_set();
        let rest = ky.to_set().remove(ky[j]);
        assert(kx.to_set().subset_of(rest)) by {
            assert forall|k: Seq<char>| kx.to_set().contains(k) implies rest.contains(k) by {
                let i = choose|i: int| 0 <= i < kx.len() && kx[i] == k;
                assert(x[i].0 == k);
                crate::object::lemma_key_at(y, k);
                assert(ky[key_at(y, k) as int] == k);
                assert(k != ky[j]);
            }
        }
        vstd::set_lib::lemma_len_subset(kx.to_set(), rest);
        assert(ky.to_set().contains(ky[j]));
    }
}

/// Equality does not depend on the side.
pub proof fn lemma_json_eq_symmetric(a: JsonView, b: JsonView)
    requires
        well_formed(a),
        well_formed(b),
        json_eq(a, b),
    ensures
        json_eq(b, a),
    decreases a,
{
    match (a, b) {
        (JsonView::Number(x), JsonView::Number(y)) => {
            lemma_number_eq(x, y, x);
        },
        (JsonView::Array(x), JsonView::Array(y)) => {
            assert forall|i: int| 0 <= i < y.len() implies json_eq(#[trigger] y[i], x[i]) by {
                assert(json_eq(x[i], y[i]));
                lemma_json_eq_symmetric(x[i], y[i]);
            }
        },
        (JsonView::Object(x), JsonView::Object(y)) => {
            assert forall|j: int| 0 <= j < y.len() implies has_key(x, (#[trigger] y[j]).0)
                && json_eq(y[j].1, lookup(x, y[j].0)->Some_0) by {
                lemma_same_keys(x, y, j);
                crate::object::lemma_key_at(x, y[j].0);
                let i = key_at(x, y[j].0) as int;
                assert(x[i].0 == y[j].0);
                lemma_found(y, j);
                lemma_json_eq_symmetric(x[i].1, y[j].1);
            }
        },
        _ => {},
    }
}

/// What is equal to a third is equal.
pub proof fn lemma_json_eq_transitive(a: JsonView, b: JsonView, c: JsonView)
    requires
        well_formed(a),
        well_formed(b),
        well_formed(c),
        json_eq(a, b),
        json_eq(b, c),
    ensures
        json_eq(a, c),
    decreases a,
{
    match (a, b, c) {
        (JsonView::Number(x), JsonView::Number(y), JsonView::Number(z)) => {
            lemma_number_eq(x, y, z);
        },
        (JsonView::Array(x), JsonView::Array(y), JsonView::Array(z)) => {
            assert forall|i: int| 0 <= i < x.len() implies json_eq(#[trigger] x[i], z[i]) by {
                assert(json_eq(x[i], y[i]));
                assert(json_eq(y[i], z[i]));
                lemma_json_eq_transitive(x[i], y[i], z[i]);
            }
        },
        (JsonView::Object(x), JsonView::Object(y), JsonView::Object(z)) => {
            assert forall|i: int| 0 <= i < x.len() implies has_key(z, (#[trigger] x[i]).0)
                && json_eq(x[i].1, lookup(z, x[i].0)->Some_0) by {
                let j = key_at(y, x[i].0) as int;
                crate::object::lemma_key_at(y, x[i].0);
                assert(y[j].0 == x[i].0);
                let k = key_at(z, y[j].0) as int;
                crate::object::lemma_key_at(z, y[j].0);
                assert(z[k].0 == x[i].0);
                lemma_json_eq_transitive(x[i].1, y[j].1, z[k].1);
            }
        },
        _ => {},
    }
}

/// Equal values hold the same object id.
pub proof fn lemma_json_eq_same_id(a: JsonView, b: JsonView)
    requires
        well_formed(a),
        well_formed(b),
        json_eq(a, b),
    ensures
        object_id_of(a) == object_id_of(b),
{
    if let (JsonView::Object(x), JsonView::Object(y)) = (a, b) {
        let k = "$oid"@;
        crate::object::lemma_key_at(x, k);
        crate::object::lemma_key_at(y, k);
        if has_key(x, k) {
            let i = key_at(x, k) as int;
            assert(x[i].0 == k);
            assert(json_eq(x[i].1, lookup(y, k)->Some_0));
        } else if has_key(y, k) {
            lemma_same_keys(x, y, key_at(y, k) as int);
        }
    }
}

/// To count as equal is an equivalence relation.
pub proof fn lemma_equivalence(a: JsonView, b: JsonView, c: JsonView)
    requires
        well_formed(a),
        well_formed(b),
        well_formed(c),
    ensures
        equivalent(a, a),
        equivalent(a, b) ==> equivalent(b, a),
        equivalent(a, b) && equivalent(b, c) ==> equivalent(a, c),
{
    lemma_json_eq_reflexive(a);
    if json_eq(a, b) {
        lemma_json_eq_symmetric(a, b);
        lemma_json_eq_same_id(a, b);
    }
    if json_eq(b, c) {
        lemma_json_eq_same_id(b, c);
    }
    if json_eq(a, b) && json_eq(b, c) {
        lemma_json_eq_transitive(a, b, c);
    }
}

} // verus!
