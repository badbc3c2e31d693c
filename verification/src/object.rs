//! Reading and changing JSON values.

use crate::float;
use crate::json::{entry_views, views, Json, JsonView, Numeral};
use crate::text::{owned, same_text};
use vstd::prelude::*;

verus! {

broadcast use crate::json::group_json_views;

/// The view of an optional value.
pub open spec fn opt_view(v: Option<&Json>) -> Option<JsonView> {
    match v {
        Some(x) => Some(x@),
        None => None,
    }
}

/// The view of an optional owned value.
pub open spec fn own_view(v: Option<Json>) -> Option<JsonView> {
    match v {
        Some(x) => Some(x@),
        None => None,
    }
}

/// The view of an optional text.
pub open spec fn text_view(v: Option<&str>) -> Option<Seq<char>> {
    match v {
        Some(x) => Some(x@),
        None => None,
    }
}

/// The view of an optional owned text.
pub open spec fn string_view(v: Option<String>) -> Option<Seq<char>> {
    match v {
        Some(x) => Some(x@),
        None => None,
    }
}

/// Where a key first stands among the entries of an object, or their number.
pub open spec fn key_at(o: Seq<(Seq<char>, JsonView)>, k: Seq<char>) -> nat
    decreases o.len(),
{
    if o.len() == 0 || o[0].0 == k {
        0
    } else {
        1 + key_at(o.drop_first(), k)
    }
}

pub open spec fn has_key(o: Seq<(Seq<char>, JsonView)>, k: Seq<char>) -> bool {
    key_at(o, k) < o.len()
}

/// The value that a key has among the entries of an object.
pub open spec fn lookup(o: Seq<(Seq<char>, JsonView)>, k: Seq<char>) -> Option<JsonView> {
    if has_key(o, k) {
        Some(o[key_at(o, k) as int].1)
    } else {
        None
    }
}

/// The entries with a key set: in its place where the key is there, else at
/// the end.
pub open spec fn with_key(
    o: Seq<(Seq<char>, JsonView)>,
    k: Seq<char>,
    v: JsonView,
) -> Seq<(Seq<char>, JsonView)> {
    if has_key(o, k) {
        o.update(key_at(o, k) as int, (k, v))
    } else {
        o.push((k, v))
    }
}

/// The entries without a key: the last entry takes its place.
pub open spec fn without_key(o: Seq<(Seq<char>, JsonView)>, k: Seq<char>) -> Seq<
    (Seq<char>, JsonView),
> {
    if has_key(o, k) {
        o.update(key_at(o, k) as int, o.last()).drop_last()
    } else {
        o
    }
}

/// No key stands twice.
pub open spec fn distinct_keys(o: Seq<(Seq<char>, JsonView)>) -> bool {
    forall|i: int, j: int| 0 <= i < j < o.len() ==> o[i].0 != o[j].0
}

/// A number in its only form: an integer is not negative where it is held as a
/// natural number, and a float is finite.
pub open spec fn canonical(n: Numeral) -> bool {
    match n {
        Numeral::PosInt(_) => true,
        Numeral::NegInt(i) => i < 0,
        Numeral::Float(b) => float::is_finite(b),
    }
}

/// A value whose numbers are canonical and whose objects hold no key twice.
pub open spec fn well_formed(v: JsonView) -> bool
    decreases v,
{
    match v {
        JsonView::Number(n) => canonical(n),
        JsonView::Array(a) => forall|i: int| 0 <= i < a.len() ==> well_formed(#[trigger] a[i]),
        JsonView::Object(o) => distinct_keys(o) && forall|i: int|
            0 <= i < o.len() ==> well_formed((#[trigger] o[i]).1),
        _ => true,
    }
}

pub proof fn lemma_key_at(o: Seq<(Seq<char>, JsonView)>, k: Seq<char>)
    ensures
        key_at(o, k) <= o.len(),
        has_key(o, k) ==> o[key_at(o, k) as int].0 == k,
        forall|j: int| 0 <= j < key_at(o, k) ==> (#[trigger] o[j]).0 != k,
    decreases o.len(),
{
    if o.len() > 0 && o[0].0 != k {
        let t = o.drop_first();
        lemma_key_at(t, k);
        assert forall|j: int| 0 <= j < key_at(o, k) implies (#[trigger] o[j]).0 != k by {
            if j > 0 {
                assert(t[j - 1] == o[j]);
            }
        }
    }
}

pub proof fn lemma_key_at_is(o: Seq<(Seq<char>, JsonView)>, k: Seq<char>, i: int)
    requires
        0 <= i <= o.len(),
        i < o.len() ==> o[i].0 == k,
        forall|j: int| 0 <= j < i ==> (#[trigger] o[j]).0 != k,
    ensures
        key_at(o, k) == i,
{
    lemma_key_at(o, k);
}

/// Reading a key after setting it gives what was set; other keys keep their
/// values.
pub proof fn lemma_lookup_with_key(
    o: Seq<(Seq<char>, JsonView)>,
    k: Seq<char>,
    v: JsonView,
    other: Seq<char>,
)
    ensures
        lookup(with_key(o, k, v), other) == if other == k {
            Some(v)
        } else {
            lookup(o, other)
        },
        distinct_keys(o) ==> distinct_keys(with_key(o, k, v)),
{
    let n = with_key(o, k, v);
    lemma_key_at(o, k);
    lemma_key_at(o, other);
    let i = key_at(o, k) as int;
    let j = key_at(o, other) as int;
    if other == k {
        lemma_key_at_is(n, other, i);
    } else if has_key(o, other) {
        lemma_key_at_is(n, other, j);
    } else {
        lemma_key_at_is(n, other, n.len() as int);
    }
    if distinct_keys(o) {
        assert forall|a: int, b: int| 0 <= a < b < n.len() implies n[a].0 != n[b].0 by {}
    }
}

/// A removed key is gone, and other keys keep their values.
pub proof fn lemma_lookup_without_key(
    o: Seq<(Seq<char>, JsonView)>,
    k: Seq<char>,
    other: Seq<char>,
)
    requires
        distinct_keys(o),
    ensures
        distinct_keys(without_key(o, k)),
        lookup(without_key(o, k), other) == if other == k {
            None
        } else {
            lookup(o, other)
        },
{
    let n = without_key(o, k);
    lemma_key_at(o, k);
    lemma_key_at(o, other);
    let i = key_at(o, k) as int;
    let j = key_at(o, other) as int;
    let last = o.len() - 1;
    if has_key(o, k) {
        assert forall|a: int, b: int| 0 <= a < b < n.len() implies n[a].0 != n[b].0 by {
            assert(n[a] == if a == i { o[last] } else { o[a] });
            assert(n[b] == if b == i { o[last] } else { o[b] });
        }
        if other == k {
            assert forall|a: int| 0 <= a < n.len() implies (#[trigger] n[a]).0 != k by {
                assert(n[a] == if a == i { o[last] } else { o[a] });
            }
            lemma_key_at_is(n, k, n.len() as int);
        } else if !has_key(o, other) {
            assert forall|a: int| 0 <= a < n.len() implies (#[trigger] n[a]).0 != other by {
                assert(n[a] == if a == i { o[last] } else { o[a] });
            }
            lemma_key_at_is(n, other, n.len() as int);
        } else {
            let at = if j == last { i } else { j };
            assert(n[at] == o[j]);
            assert forall|a: int| 0 <= a < at implies (#[trigger] n[a]).0 != other by {
                assert(n[a] == if a == i { o[last] } else { o[a] });
            }
            lemma_key_at_is(n, other, at);
        }
    }
}

/// Where a key first stands among the entries of an object.
pub fn key_index(o: &Vec<(String, Json)>, k: &str) -> (r: usize)
    ensures
        r == key_at(entry_views(o@), k@),
        r <= o@.len(),
{
    let ghost e = entry_views(o@);
    let mut i: usize = 0;
    while i < o.len()
        invariant
            i <= o@.len(),
            e == entry_views(o@),
            forall|j: int| 0 <= j < i ==> (#[trigger] e[j]).0 != k@,
        decreases o@.len() - i,
    {
        if same_text(o[i].0.as_str(), k) {
            proof {
                lemma_key_at_is(e, k@, i as int);
            }
            return i;
        }
        i = i + 1;
    }
    proof {
        lemma_key_at_is(e, k@, e.len() as int);
    }
    i
}

/// The value that a key has among the entries of an object.
pub fn get_entry<'a>(o: &'a Vec<(String, Json)>, k: &str) -> (r: Option<&'a Json>)
    ensures
        opt_view(r) == lookup(entry_views(o@), k@),
{
    let i = key_index(o, k);
    if i < o.len() {
        Some(&o[i].1)
    } else {
        None
    }
}

/// Sets a key among the entries of an object.
pub fn set_entry(o: &mut Vec<(String, Json)>, k: &str, v: Json)
    ensures
        entry_views(final(o)@) == with_key(entry_views(old(o)@), k@, v@),
{
    let i = key_index(o, k);
    let ghost before = entry_views(o@);
    let ghost kv = (k@, v@);
    let key = owned(k);
    if i < o.len() {
        o.set(i, (key, v));
        assert(entry_views(o@) == before.update(i as int, kv));
    } else {
        o.push((key, v));
        assert(entry_views(o@) == before.push(kv));
    }
}

/// Removes a key from the entries of an object.
pub fn remove_entry(o: &mut Vec<(String, Json)>, k: &str)
    ensures
        entry_views(final(o)@) == without_key(entry_views(old(o)@), k@),
{
    let i = key_index(o, k);
    let ghost before = entry_views(o@);
    if i < o.len() {
        o.swap_remove(i);
        assert(entry_views(o@) == before.update(i as int, before.last()).drop_last());
    }
}

/// The value of a field of an object; nothing else has fields.
pub open spec fn field(v: JsonView, k: Seq<char>) -> Option<JsonView> {
    match v {
        JsonView::Object(o) => lookup(o, k),
        _ => None,
    }
}

pub open spec fn str_of(v: JsonView) -> Option<Seq<char>> {
    match v {
        JsonView::String(s) => Some(s),
        _ => None,
    }
}

pub open spec fn bool_of(v: JsonView) -> Option<bool> {
    match v {
        JsonView::Bool(b) => Some(b),
        _ => None,
    }
}

/// The integer of a number that is held as one and fits 64 signed bits.
pub open spec fn int_of(v: JsonView) -> Option<i64> {
    match v {
        JsonView::Number(Numeral::PosInt(n)) => if n <= i64::MAX {
            Some(n as i64)
        } else {
            None
        },
        JsonView::Number(Numeral::NegInt(n)) => Some(n),
        _ => None,
    }
}

/// The natural number of a number that is held as one.
pub open spec fn nat_of(v: JsonView) -> Option<u64> {
    match v {
        JsonView::Number(Numeral::PosInt(n)) => Some(n),
        _ => None,
    }
}

/// The binary64 number nearest to a number.
pub open spec fn float_of(v: JsonView) -> Option<u64> {
    match v {
        JsonView::Number(Numeral::PosInt(n)) => Some(float::of_int(n as int)),
        JsonView::Number(Numeral::NegInt(n)) => Some(float::of_int(n as int)),
        JsonView::Number(Numeral::Float(b)) => if float::is_finite(b) {
            Some(b)
        } else {
            None
        },
        _ => None,
    }
}

impl Json {
    /// The value of a field of an object.
    pub fn get(&self, k: &str) -> (r: Option<&Json>)
        ensures
            opt_view(r) == field(self@, k@),
    {
        match self {
            Json::Object(o) => get_entry(o, k),
            _ => None,
        }
    }

    pub fn as_str(&self) -> (r: Option<&str>)
        ensures
            text_view(r) == str_of(self@),
    {
        match self {
            Json::String(s) => Some(s.as_str()),
            _ => None,
        }
    }

    pub fn as_bool(&self) -> (r: Option<bool>)
        ensures
            r == bool_of(self@),
    {
        match self {
            Json::Bool(b) => Some(*b),
            _ => None,
        }
    }

    pub fn as_i64(&self) -> (r: Option<i64>)
        ensures
            r == int_of(self@),
    {
        match self {
            Json::Number(Numeral::PosInt(n)) => if *n <= i64::MAX as u64 {
                Some(*n as i64)
            } else {
                None
            },
            Json::Number(Numeral::NegInt(n)) => Some(*n),
            _ => None,
        }
    }

    pub fn as_u64(&self) -> (r: Option<u64>)
        ensures
            r == nat_of(self@),
    {
        match self {
            Json::Number(Numeral::PosInt(n)) => Some(*n),
            _ => None,
        }
    }

    /// The bits of the binary64 number nearest to a number.
    pub fn as_float(&self) -> (r: Option<u64>)
        ensures
            r == float_of(self@),
            r matches Some(b) ==> float::is_finite(b),
    {
        match self {
            Json::Number(Numeral::PosInt(n)) => Some(float::from_unsigned(*n)),
            Json::Number(Numeral::NegInt(n)) => Some(float::from_signed(*n)),
            Json::Number(Numeral::Float(b)) => if float::finite(*b) {
                Some(*b)
            } else {
                None
            },
            _ => None,
        }
    }

    pub fn is_object(&self) -> (r: bool)
        ensures
            r == (self@ is Object),
    {
        match self {
            Json::Object(_) => true,
            _ => false,
        }
    }

    pub fn is_null(&self) -> (r: bool)
        ensures
            r == (self@ is Null),
    {
        match self {
            Json::Null => true,
            _ => false,
        }
    }
}

/// A JSON text value.
pub fn text_value(s: &str) -> (r: Json)
    ensures
        r@ == JsonView::String(s@),
{
    Json::String(owned(s))
}

/// A JSON value that is a natural number.
pub fn nat_value(n: u64) -> (r: Json)
    ensures
        r@ == JsonView::Number(Numeral::PosInt(n)),
{
    Json::Number(Numeral::PosInt(n))
}

/// An object without entries.
pub fn empty_object() -> (r: Json)
    ensures
        r@ == JsonView::Object(Seq::empty()),
{
    let o: Vec<(String, Json)> = Vec::new();
    assert(entry_views(o@) == Seq::<(Seq<char>, JsonView)>::empty());
    Json::Object(o)
}

/// A copy of an optional value.
pub fn cloned_json(v: Option<&Json>) -> (r: Option<Json>)
    ensures
        own_view(r) == opt_view(v),
{
    match v {
        Some(x) => Some(x.clone()),
        None => None,
    }
}

/// Whether two numbers are equal as JSON numbers: of the same kind, and with
/// the same value.
pub open spec fn number_eq(a: Numeral, b: Numeral) -> bool {
    match (a, b) {
        (Numeral::PosInt(x), Numeral::PosInt(y)) => x == y,
        (Numeral::NegInt(x), Numeral::NegInt(y)) => x == y,
        (Numeral::Float(x), Numeral::Float(y)) => x == y || (float::is_finite(x) && float::is_finite(
            y,
        ) && float::exact(x) == float::exact(y)),
        _ => false,
    }
}

/// Whether two values are equal: the order of an object's entries does not
/// count.
pub open spec fn json_eq(a: JsonView, b: JsonView) -> bool
    decreases a,
{
    match (a, b) {
        (JsonView::Null, JsonView::Null) => true,
        (JsonView::Bool(x), JsonView::Bool(y)) => x == y,
        (JsonView::Number(x), JsonView::Number(y)) => number_eq(x, y),
        (JsonView::String(x), JsonView::String(y)) => x == y,
        (JsonView::Array(x), JsonView::Array(y)) => x.len() == y.len() && forall|i: int|
            0 <= i < x.len() ==> json_eq(#[trigger] x[i], y[i]),
        (JsonView::Object(x), JsonView::Object(y)) => x.len() == y.len() && forall|i: int|
            0 <= i < x.len() ==> has_key(y, (#[trigger] x[i]).0) && json_eq(
                x[i].1,
                lookup(y, x[i].0)->Some_0,
            ),
        _ => false,
    }
}

/// Whether two values are equal.
pub fn same_json(a: &Json, b: &Json) -> (r: bool)
    ensures
        r == json_eq(a@, b@),
    decreases a,
{
    match (a, b) {
        (Json::Null, Json::Null) => true,
        (Json::Bool(x), Json::Bool(y)) => *x == *y,
        (Json::Number(x), Json::Number(y)) => same_number(*x, *y),
        (Json::String(x), Json::String(y)) => same_text(x.as_str(), y.as_str()),
        (Json::Array(x), Json::Array(y)) => {
            if x.len() != y.len() {
                return false;
            }
            let mut i: usize = 0;
            while i < x.len()
                invariant
                    i <= x@.len() == y@.len(),
                    *a == Json::Array(*x),
                    *b == Json::Array(*y),
                    forall|j: int| 0 <= j < i ==> json_eq(#[trigger] views(x@)[j], views(y@)[j]),
                decreases x@.len() - i,
            {
                assert(decreases_to!(*a => a->Array_0));
                assert(decreases_to!(*x => x@[i as int]));
                let same = same_json(&x[i], &y[i]);
                if !same {
                    assert(!json_eq(views(x@)[i as int], views(y@)[i as int]));
                    return false;
                }
                i = i + 1;
            }
            true
        },
        (Json::Object(x), Json::Object(y)) => {
            if x.len() != y.len() {
                return false;
            }
            let mut i: usize = 0;
            while i < x.len()
                invariant
                    i <= x@.len() == y@.len(),
                    *a == Json::Object(*x),
                    *b == Json::Object(*y),
                    forall|j: int|
                        0 <= j < i ==> has_key(entry_views(y@), (#[trigger] entry_views(x@)[j]).0)
                            && json_eq(
                            entry_views(x@)[j].1,
                            lookup(entry_views(y@), entry_views(x@)[j].0)->Some_0,
                        ),
                decreases x@.len() - i,
            {
                assert(decreases_to!(*a => a->Object_0));
                assert(decreases_to!(*x => x@[i as int]));
                assert(decreases_to!(x@[i as int] => x@[i as int].1));
                let ghost e = entry_views(x@)[i as int];
                let k = key_index(y, x[i].0.as_str());
                if k >= y.len() {
                    assert(!has_key(entry_views(y@), e.0));
                    return false;
                }
                let same = same_json(&x[i].1, &y[k].1);
                if !same {
                    assert(!json_eq(e.1, lookup(entry_views(y@), e.0)->Some_0));
                    return false;
                }
                i = i + 1;
            }
            true
        },
        _ => false,
    }
}

/// Whether two numbers are equal as JSON numbers.
pub fn same_number(a: Numeral, b: Numeral) -> (r: bool)
    ensures
        r == number_eq(a, b),
{
    match (a, b) {
        (Numeral::PosInt(x), Numeral::PosInt(y)) => x == y,
        (Numeral::NegInt(x), Numeral::NegInt(y)) => x == y,
        (Numeral::Float(x), Numeral::Float(y)) => x == y || (float::finite(x) && float::finite(y)
            && float::equal(x, y)),
        _ => false,
    }
}

} // verus!
