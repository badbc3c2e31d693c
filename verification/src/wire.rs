//! JSON values as text.  `serde_json` writes and reads the text; the functions
//! here carry values to it and back.

use crate::float;
use crate::json::{Json, JsonView, Numeral};
use crate::object::{canonical, distinct_keys, has_key, key_at, well_formed, with_key};
use vstd::prelude::*;

verus! {

broadcast use crate::json::group_json_views;

/// A value of `serde_json`.
#[verifier::external_type_specification]
#[verifier::external_body]
pub struct ExSerdeValue(serde_json::Value);

/// A number of `serde_json`.
#[verifier::external_type_specification]
#[verifier::external_body]
pub struct ExSerdeNumber(serde_json::Number);

/// What a value of `serde_json` holds.
pub uninterp spec fn json_of(v: serde_json::Value) -> JsonView;

/// What a number of `serde_json` holds.
pub uninterp spec fn number_of(n: serde_json::Number) -> Numeral;

/// The text that `serde_json` writes for a value.
pub uninterp spec fn json_text(v: JsonView) -> Seq<char>;

/// The value that `serde_json` reads from a text, if the text is JSON.
pub uninterp spec fn parsed(s: Seq<char>) -> Option<JsonView>;

/// A value of `serde_json`, opened one level deep.
pub enum Shape {
    Null,
    Bool(bool),
    Number(serde_json::Number),
    String(String),
    Array(Vec<serde_json::Value>),
    Object(Vec<(String, serde_json::Value)>),
}

/// What an opened value holds.
pub open spec fn shape_view(s: Shape) -> JsonView {
    match s {
        Shape::Null => JsonView::Null,
        Shape::Bool(b) => JsonView::Bool(b),
        Shape::Number(n) => JsonView::Number(number_of(n)),
        Shape::String(t) => JsonView::String(t@),
        Shape::Array(a) => JsonView::Array(a@.map_values(|v: serde_json::Value| json_of(v))),
        Shape::Object(o) => JsonView::Object(
            o@.map_values(|e: (String, serde_json::Value)| (e.0@, json_of(e.1))),
        ),
    }
}

/// The entries that are left when each is inserted in turn: a repeated key
/// keeps its place and takes the later value.
pub open spec fn merged(o: Seq<(Seq<char>, JsonView)>) -> Seq<(Seq<char>, JsonView)>
    decreases o.len(),
{
    if o.len() == 0 {
        o
    } else {
        with_key(merged(o.drop_last()), o.last().0, o.last().1)
    }
}

/// A value with the entries of the outermost object merged.
pub open spec fn merged_value(v: JsonView) -> JsonView {
    match v {
        JsonView::Object(o) => JsonView::Object(merged(o)),
        _ => v,
    }
}

/// A value in the form in which JSON can hold it: numbers are canonical, a
/// number that is not finite is null, and the entries of objects are merged.
pub open spec fn normal(v: JsonView) -> JsonView
    decreases v,
{
    match v {
        JsonView::Number(Numeral::NegInt(i)) => if i < 0 {
            v
        } else {
            JsonView::Number(Numeral::PosInt(i as u64))
        },
        JsonView::Number(Numeral::Float(b)) => if float::is_finite(b) {
            v
        } else {
            JsonView::Null
        },
        JsonView::Array(a) => JsonView::Array(
            Seq::new(
                a.len(),
                |i: int|
                    if 0 <= i < a.len() {
                        normal(a[i])
                    } else {
                        arbitrary()
                    },
            ),
        ),
        JsonView::Object(o) => JsonView::Object(merged(normal_entries(o))),
        _ => v,
    }
}

/// Entries with their values in normal form.
pub open spec fn normal_entries(o: Seq<(Seq<char>, JsonView)>) -> Seq<(Seq<char>, JsonView)>
    decreases o,
{
    Seq::new(
        o.len(),
        |i: int|
            if 0 <= i < o.len() {
                (o[i].0, normal(o[i].1))
            } else {
                arbitrary()
            },
    )
}

/// The text of a value.
pub open spec fn text_of(v: JsonView) -> Seq<char> {
    json_text(normal(v))
}

/// The text of a value, but a text stands for itself.
pub open spec fn bare_text_of(v: JsonView) -> Seq<char> {
    match v {
        JsonView::String(s) => s,
        _ => text_of(v),
    }
}

/// A well-formed value without floats that is nested at most `depth` deep.
pub open spec fn portable(v: JsonView, depth: nat) -> bool
    decreases v,
{
    match v {
        JsonView::Number(n) => canonical(n) && !(n is Float),
        JsonView::Array(a) => depth > 0 && forall|i: int|
            0 <= i < a.len() ==> portable(#[trigger] a[i], (depth - 1) as nat),
        JsonView::Object(o) => depth > 0 && distinct_keys(o) && forall|i: int|
            0 <= i < o.len() ==> portable((#[trigger] o[i]).1, (depth - 1) as nat),
        _ => true,
    }
}

/// Merging leaves entries alone whose keys differ.
pub proof fn lemma_merged_distinct(o: Seq<(Seq<char>, JsonView)>)
    ensures
        distinct_keys(merged(o)),
        distinct_keys(o) ==> merged(o) == o,
    decreases o.len(),
{
    if o.len() > 0 {
        let d = o.drop_last();
        lemma_merged_distinct(d);
        crate::object::lemma_lookup_with_key(merged(d), o.last().0, o.last().1, o.last().0);
        if distinct_keys(o) {
            assert(distinct_keys(d)) by {
                assert forall|i: int, j: int| 0 <= i < j < d.len() implies d[i].0 != d[j].0 by {
                    assert(d[i] == o[i] && d[j] == o[j]);
                }
            }
            crate::object::lemma_key_at(d, o.last().0);
            if has_key(d, o.last().0) {
                let i = key_at(d, o.last().0) as int;
                assert(o[i] == d[i]);
            }
            assert(d.push(o.last()) == o);
        }
    }
}

proof fn lemma_merged_values(o: Seq<(Seq<char>, JsonView)>)
    requires
        forall|i: int| 0 <= i < o.len() ==> well_formed((#[trigger] o[i]).1),
    ensures
        forall|i: int| 0 <= i < merged(o).len() ==> well_formed((#[trigger] merged(o)[i]).1),
    decreases o.len(),
{
    if o.len() > 0 {
        let d = o.drop_last();
        lemma_merged_values(d);
        let m = merged(d);
        let n = merged(o);
        assert forall|i: int| 0 <= i < n.len() implies well_formed((#[trigger] n[i]).1) by {
            if i < m.len() {
                assert(n[i] == m[i] || n[i].1 == o.last().1);
            }
        }
    }
}

/// What JSON can hold is well-formed, and a well-formed value is held as it is.
pub proof fn lemma_normal(v: JsonView)
    ensures
        well_formed(normal(v)),
        well_formed(v) ==> normal(v) == v,
    decreases v,
{
    match v {
        JsonView::Array(a) => {
            let n = normal(v)->Array_0;
            assert forall|i: int| 0 <= i < a.len() implies well_formed(#[trigger] n[i]) && (
            well_formed(a[i]) ==> n[i] == a[i]) by {
                lemma_normal(a[i]);
            }
            if well_formed(v) {
                assert(n == a);
            }
        },
        JsonView::Object(o) => {
            let n = normal_entries(o);
            assert(normal(v) == JsonView::Object(merged(n)));
            assert forall|i: int| 0 <= i < o.len() implies well_formed((#[trigger] n[i]).1) && (
            well_formed(o[i].1) ==> n[i] == o[i]) by {
                lemma_normal(o[i].1);
            }
            lemma_merged_distinct(n);
            lemma_merged_values(n);
            if well_formed(v) {
                assert(n == o);
            }
        },
        _ => {},
    }
}

/// A portable value is well-formed.
pub proof fn lemma_portable_well_formed(v: JsonView, depth: nat)
    requires
        portable(v, depth),
    ensures
        well_formed(v),
    decreases v,
{
    match v {
        JsonView::Array(a) => {
            assert forall|i: int| 0 <= i < a.len() implies well_formed(#[trigger] a[i]) by {
                lemma_portable_well_formed(a[i], (depth - 1) as nat);
            }
        },
        JsonView::Object(o) => {
            assert forall|i: int| 0 <= i < o.len() implies well_formed((#[trigger] o[i]).1) by {
                lemma_portable_well_formed(o[i].1, (depth - 1) as nat);
            }
        },
        _ => {},
    }
}

/// `serde_json::Number::as_u64` gives the number where it is held as a natural
/// number.
pub assume_specification[ serde_json::Number::as_u64 ](n: &serde_json::Number) -> (r: Option<u64>)
    ensures
        r == match number_of(*n) {
            Numeral::PosInt(u) => Some(u),
            _ => None,
        },
;

/// `serde_json::Number::as_i64` gives the number where it is held as an integer
/// that fits; a natural number that is too large, or a float, gives nothing.
pub assume_specification[ serde_json::Number::as_i64 ](n: &serde_json::Number) -> (r: Option<i64>)
    ensures
        r == match number_of(*n) {
            Numeral::PosInt(u) => if u <= i64::MAX {
                Some(u as i64)
            } else {
                None
            },
            Numeral::NegInt(i) => Some(i),
            Numeral::Float(_) => None,
        },
        number_of(*n) is NegInt ==> r->Some_0 < 0,
;

/// `serde_json::Number::as_f64` gives the float where the number is held as
/// one, which is always finite; the result is its bits.
#[verifier::external_body]
fn float_bits(n: &serde_json::Number) -> (bits: u64)
    requires
        number_of(*n) is Float,
    ensures
        number_of(*n) == Numeral::Float(bits),
        float::is_finite(bits),
{
    n.as_f64().unwrap().to_bits()
}

/// `serde_json::Number::from` on a natural number.
#[verifier::external_body]
fn number_from_unsigned(u: u64) -> (n: serde_json::Number)
    ensures
        number_of(n) == Numeral::PosInt(u),
{
    serde_json::Number::from(u)
}

/// `serde_json::Number::from` on an integer: one that is not negative is held
/// as a natural number.
#[verifier::external_body]
fn number_from_signed(i: i64) -> (n: serde_json::Number)
    ensures
        number_of(n) == if i < 0 {
            Numeral::NegInt(i)
        } else {
            Numeral::PosInt(i as u64)
        },
{
    serde_json::Number::from(i)
}

/// `serde_json::Number::from_f64` on the float with the given bits, which
/// `Buf::get_f64` reads from their bytes: a finite float is held as it is, and
/// nothing else is a JSON number.
#[verifier::external_body]
fn number_from_bits(bits: u64) -> (n: Option<serde_json::Number>)
    ensures
        match n {
            Some(x) => float::is_finite(bits) && number_of(x) == Numeral::Float(bits),
            None => !float::is_finite(bits),
        },
{
    serde_json::Number::from_f64(warp::Buf::get_f64(&mut &bits.to_be_bytes()[..]))
}

/// The variants of `serde_json::Value`, and the entries of its `Map` in their
/// order, no key twice.
#[verifier::external_body]
fn open_value(v: serde_json::Value) -> (s: Shape)
    ensures
        shape_view(s) == json_of(v),
        s is Object ==> distinct_keys(shape_view(s)->Object_0),
{
    match v {
        serde_json::Value::Null => Shape::Null,
        serde_json::Value::Bool(b) => Shape::Bool(b),
        serde_json::Value::Number(n) => Shape::Number(n),
        serde_json::Value::String(s) => Shape::String(s),
        serde_json::Value::Array(a) => Shape::Array(a),
        serde_json::Value::Object(o) => Shape::Object(o.into_iter().collect()),
    }
}

/// The variants of `serde_json::Value`, and its `Map` collected from entries in
/// their order.
#[verifier::external_body]
fn close_value(s: Shape) -> (v: serde_json::Value)
    ensures
        json_of(v) == merged_value(shape_view(s)),
{
    match s {
        Shape::Null => serde_json::Value::Null,
        Shape::Bool(b) => serde_json::Value::Bool(b),
        Shape::Number(n) => serde_json::Value::Number(n),
        Shape::String(s) => serde_json::Value::String(s),
        Shape::Array(a) => serde_json::Value::Array(a),
        Shape::Object(o) => serde_json::Value::Object(o.into_iter().collect()),
    }
}

/// `serde_json::Value::to_string`: the compact text depends on what the value
/// holds alone.  Where no float stands in the value and it is nested no deeper
/// than the reader goes, the text reads back as the value; of floats nothing is
/// said.
#[verifier::external_body]
fn write_value(v: &serde_json::Value) -> (r: String)
    ensures
        r@ == json_text(json_of(*v)),
        portable(json_of(*v), 127) ==> parsed(r@) == Some(json_of(*v)),
{
    v.to_string()
}

/// `serde_json::from_str` into a value: what is read depends on the text alone.
#[verifier::external_body]
fn read_value(s: &str) -> (r: Option<serde_json::Value>)
    ensures
        match r {
            Some(v) => parsed(s@) == Some(json_of(v)),
            None => parsed(s@) is None,
        },
{
    serde_json::from_str(s).ok()
}

/// The `serde_json` form of a value.
fn to_serde(v: &Json) -> (r: serde_json::Value)
    ensures
        json_of(r) == normal(v@),
    decreases v,
{
    match v {
        Json::Null => close_value(Shape::Null),
        Json::Bool(b) => close_value(Shape::Bool(*b)),
        Json::Number(Numeral::PosInt(u)) => close_value(Shape::Number(number_from_unsigned(*u))),
        Json::Number(Numeral::NegInt(i)) => close_value(Shape::Number(number_from_signed(*i))),
        Json::Number(Numeral::Float(b)) => match number_from_bits(*b) {
            Some(n) => close_value(Shape::Number(n)),
            None => close_value(Shape::Null),
        },
        Json::String(s) => close_value(Shape::String(s.clone())),
        Json::Array(a) => {
            let mut out: Vec<serde_json::Value> = Vec::new();
            let mut i: usize = 0;
            while i < a.len()
                invariant
                    i <= a@.len(),
                    out@.len() == i,
                    *v == Json::Array(*a),
                    forall|j: int| 0 <= j < i ==> json_of(#[trigger] out@[j]) == normal(a@[j]@),
                decreases a@.len() - i,
            {
                assert(decreases_to!(*v => v->Array_0));
                assert(decreases_to!(*a => a@[i as int]));
                out.push(to_serde(&a[i]));
                i = i + 1;
            }
            let shape = Shape::Array(out);
            assert(shape_view(shape) == normal(v@)) by {
                assert(shape_view(shape)->Array_0 == normal(v@)->Array_0);
            }
            close_value(shape)
        },
        Json::Object(o) => {
            let mut out: Vec<(String, serde_json::Value)> = Vec::new();
            let mut i: usize = 0;
            while i < o.len()
                invariant
                    i <= o@.len(),
                    out@.len() == i,
                    *v == Json::Object(*o),
                    forall|j: int|
                        0 <= j < i ==> (#[trigger] out@[j]).0@ == o@[j].0@ && json_of(out@[j].1)
                            == normal(o@[j].1@),
                decreases o@.len() - i,
            {
                assert(decreases_to!(*v => v->Object_0));
                assert(decreases_to!(*o => o@[i as int]));
                assert(decreases_to!(o@[i as int] => o@[i as int].1));
                out.push((o[i].0.clone(), to_serde(&o[i].1)));
                i = i + 1;
            }
            let shape = Shape::Object(out);
            proof {
                let e = v@->Object_0;
                let n = normal_entries(e);
                assert(shape_view(shape)->Object_0 == n);
            }
            close_value(shape)
        },
    }
}

/// The value that a `serde_json` value holds.
fn from_serde(v: serde_json::Value) -> (r: Json)
    ensures
        r@ == json_of(v),
        well_formed(r@),
    decreases json_of(v),
{
    let ghost whole = json_of(v);
    match open_value(v) {
        Shape::Null => Json::Null,
        Shape::Bool(b) => Json::Bool(b),
        Shape::Number(n) => match n.as_u64() {
            Some(u) => Json::Number(Numeral::PosInt(u)),
            None => match n.as_i64() {
                Some(i) => Json::Number(Numeral::NegInt(i)),
                None => Json::Number(Numeral::Float(float_bits(&n))),
            },
        },
        Shape::String(s) => Json::String(s),
        Shape::Array(mut a) => {
            let ghost all = a@;
            let ghost held = whole->Array_0;
            let mut out: Vec<Json> = Vec::new();
            while a.len() > 0
                invariant
                    whole == JsonView::Array(held),
                    whole == json_of(v),
                    held.len() == all.len(),
                    forall|j: int| 0 <= j < all.len() ==> held[j] == json_of(#[trigger] all[j]),
                    a@.len() + out@.len() == all.len(),
                    a@ == all.skip(out@.len() as int),
                    forall|j: int|
                        0 <= j < out@.len() ==> (#[trigger] out@[j])@ == held[j] && well_formed(
                            out@[j]@,
                        ),
                decreases a@.len(),
            {
                let x = a.remove(0);
                assert(x == all[out@.len() as int]);
                assert(decreases_to!(whole => whole->Array_0));
                assert(decreases_to!(held => held[out@.len() as int]));
                out.push(from_serde(x));
            }
            let r = Json::Array(out);
            assert(r@->Array_0 == held);
            r
        },
        Shape::Object(mut o) => {
            let ghost all = o@;
            let ghost held = whole->Object_0;
            let mut out: Vec<(String, Json)> = Vec::new();
            while o.len() > 0
                invariant
                    whole == JsonView::Object(held),
                    whole == json_of(v),
                    held.len() == all.len(),
                    forall|j: int|
                        0 <= j < all.len() ==> held[j].0 == (#[trigger] all[j]).0@ && held[j].1
                            == json_of(all[j].1),
                    o@.len() + out@.len() == all.len(),
                    o@ == all.skip(out@.len() as int),
                    forall|j: int|
                        0 <= j < out@.len() ==> (#[trigger] out@[j]).0@ == held[j].0
                            && out@[j].1@ == held[j].1 && well_formed(out@[j].1@),
                decreases o@.len(),
            {
                let (k, x) = o.remove(0);
                assert((k, x) == all[out@.len() as int]);
                assert(decreases_to!(whole => whole->Object_0));
                assert(decreases_to!(held => held[out@.len() as int]));
                assert(decreases_to!(held[out@.len() as int] => held[out@.len() as int].1));
                out.push((k, from_serde(x)));
            }
            let r = Json::Object(out);
            assert(r@->Object_0 == held);
            r
        },
    }
}

/// The text of a value.
pub fn to_text(v: &Json) -> (r: String)
    ensures
        r@ == text_of(v@),
        portable(v@, 127) ==> parsed(r@) == Some(v@),
{
    let s = to_serde(v);
    proof {
        if portable(v@, 127) {
            lemma_portable_well_formed(v@, 127);
            lemma_normal(v@);
        }
    }
    write_value(&s)
}

/// The text of a value, but a text stands for itself.
pub fn json_to_string(v: &Json) -> (r: String)
    ensures
        r@ == bare_text_of(v@),
{
    match v {
        Json::String(s) => s.clone(),
        _ => to_text(v),
    }
}

/// The value that a text stands for, if the text is JSON.
pub fn from_text(s: &str) -> (r: Option<Json>)
    ensures
        match r {
            Some(v) => parsed(s@) == Some(v@) && well_formed(v@),
            None => parsed(s@) is None,
        },
{
    match read_value(s) {
        Some(v) => Some(from_serde(v)),
        None => None,
    }
}

} // verus!
