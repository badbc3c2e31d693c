//! JSON values.

use vstd::prelude::*;

verus! {

/// A JSON number: a natural number, a negative integer, or a binary64 number
/// held as its bits.
#[derive(Debug, Clone, Copy, PartialEq, Eq, Structural)]
pub enum Numeral {
    PosInt(u64),
    NegInt(i64),
    Float(u64),
}

/// A JSON value.  An object keeps its entries in the order in which its keys
/// were first inserted.
#[derive(Debug)]
pub enum Json {
    Null,
    Bool(bool),
    Number(Numeral),
    String(String),
    Array(Vec<Json>),
    Object(Vec<(String, Json)>),
}

/// What a JSON value is.
#[verifier::ext_equal]
pub enum JsonView {
    Null,
    Bool(bool),
    Number(Numeral),
    String(Seq<char>),
    Array(Seq<JsonView>),
    Object(Seq<(Seq<char>, JsonView)>),
}

/// The view of a JSON value.
pub open spec fn json_view(v: Json) -> JsonView
    decreases v,
{
    match v {
        Json::Null => JsonView::Null,
        Json::Bool(b) => JsonView::Bool(b),
        Json::Number(n) => JsonView::Number(n),
        Json::String(s) => JsonView::String(s@),
        Json::Array(a) => JsonView::Array(
            Seq::new(
                a@.len(),
                |i: int|
                    if 0 <= i < a@.len() {
                        json_view(a@[i])
                    } else {
                        arbitrary()
                    },
            ),
        ),
        Json::Object(o) => JsonView::Object(
            Seq::new(
                o@.len(),
                |i: int|
                    if 0 <= i < o@.len() {
                        (o@[i].0@, json_view(o@[i].1))
                    } else {
                        arbitrary()
                    },
            ),
        ),
    }
}

impl View for Json {
    type V = JsonView;

    open spec fn view(&self) -> JsonView {
        json_view(*self)
    }
}

/// The views of a list of values.
pub open spec fn views(s: Seq<Json>) -> Seq<JsonView> {
    s.map_values(|v: Json| v@)
}

/// The view of a list of entries.
pub open spec fn entry_views(s: Seq<(String, Json)>) -> Seq<(Seq<char>, JsonView)> {
    s.map_values(|e: (String, Json)| (e.0@, e.1@))
}

pub broadcast proof fn lemma_array_view(a: Vec<Json>)
    ensures
        #[trigger] json_view(Json::Array(a)) == JsonView::Array(views(a@)),
{
    assert(json_view(Json::Array(a))->Array_0 == views(a@));
}

pub broadcast proof fn lemma_object_view(o: Vec<(String, Json)>)
    ensures
        #[trigger] json_view(Json::Object(o)) == JsonView::Object(entry_views(o@)),
{
    assert(json_view(Json::Object(o))->Object_0 == entry_views(o@));
}

pub broadcast group group_json_views {
    lemma_array_view,
    lemma_object_view,
}

impl Clone for Json {
    fn clone(&self) -> (r: Json)
        ensures
            r@ == self@,
        decreases self,
    {
        broadcast use group_json_views;

        match self {
            Json::Null => Json::Null,
            Json::Bool(b) => Json::Bool(*b),
            Json::Number(n) => Json::Number(*n),
            Json::String(s) => Json::String(s.clone()),
            Json::Array(a) => {
                let mut out: Vec<Json> = Vec::new();
                let mut i: usize = 0;
                while i < a.len()
                    invariant
                        i <= a@.len(),
                        views(out@) == views(a@).take(i as int),
                        *self == Json::Array(*a),
                    decreases a@.len() - i,
                {
                    assert(decreases_to!(*self => self->Array_0));
                    assert(decreases_to!(*a => a@[i as int]));
                    let x = a[i].clone();
                    let ghost before = views(out@);
                    out.push(x);
                    assert(views(out@) == before.push(x@));
                    assert(views(a@).take(i + 1) == views(a@).take(i as int).push(views(a@)[i as int]));
                    i = i + 1;
                }
                assert(views(a@).take(a@.len() as int) == views(a@));
                Json::Array(out)
            },
            Json::Object(o) => {
                let mut out: Vec<(String, Json)> = Vec::new();
                let mut i: usize = 0;
                while i < o.len()
                    invariant
                        i <= o@.len(),
                        entry_views(out@) == entry_views(o@).take(i as int),
                        *self == Json::Object(*o),
                    decreases o@.len() - i,
                {
                    assert(decreases_to!(*self => self->Object_0));
                    assert(decreases_to!(*o => o@[i as int]));
                    assert(decreases_to!(o@[i as int] => o@[i as int].1));
                    let k = o[i].0.clone();
                    let x = o[i].1.clone();
                    let ghost before = entry_views(out@);
                    out.push((k, x));
                    assert(entry_views(out@) == before.push((k@, x@)));
                    assert(entry_views(o@).take(i + 1) == entry_views(o@).take(i as int).push(
                        entry_views(o@)[i as int],
                    ));
                    i = i + 1;
                }
                assert(entry_views(o@).take(o@.len() as int) == entry_views(o@));
                Json::Object(out)
            },
        }
    }
}

} // verus!
