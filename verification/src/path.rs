//! Reading and changing what stands deep inside a JSON value, by a dotted path.

use crate::json::{entry_views, views, Json, JsonView};
use crate::object::{
    distinct_keys, empty_object, field, has_key, key_at, key_index, lookup, own_view, remove_entry,
    set_entry, well_formed, with_key, without_key,
};
use crate::text::{decimal, owned, parse_decimal, pieces, split, texts};
use vstd::prelude::*;

verus! {

broadcast use crate::json::group_json_views;

/// The array index that a piece of a path stands for.
pub open spec fn index_of(piece: Seq<char>) -> Option<nat> {
    decimal(piece, usize::MAX as nat)
}

/// What stands at a path.  A piece names a key of an object or an index of an
/// array.  A piece that is no index is read in every item of an array, and what
/// the items give is collected.
pub open spec fn get_path(v: JsonView, path: Seq<Seq<char>>) -> Option<JsonView>
    decreases v,
{
    if path.len() == 0 {
        Some(v)
    } else {
        match v {
            JsonView::Object(o) => if has_key(o, path[0]) {
                get_path(o[key_at(o, path[0]) as int].1, path.drop_first())
            } else {
                None
            },
            JsonView::Array(a) => match index_of(path[0]) {
                Some(i) => if i < a.len() {
                    get_path(a[i as int], path.drop_first())
                } else {
                    None
                },
                None => if collected(a, path).len() == 0 {
                    None
                } else {
                    Some(JsonView::Array(collected(a, path)))
                },
            },
            _ => None,
        }
    }
}

/// What stands at a path in those items that have it.
pub open spec fn collected(a: Seq<JsonView>, path: Seq<Seq<char>>) -> Seq<JsonView>
    decreases a,
{
    if a.len() == 0 {
        Seq::empty()
    } else {
        let head = collected(a.drop_last(), path);
        match get_path(a.last(), path) {
            Some(x) => head.push(x),
            None => head,
        }
    }
}

/// An array with nulls added until it has `n` items.
pub open spec fn padded(a: Seq<JsonView>, n: nat) -> Seq<JsonView> {
    if a.len() >= n {
        a
    } else {
        a + Seq::new((n - a.len()) as nat, |i: int| JsonView::Null)
    }
}

/// A value with something set at a path.  Objects that are missing on the way
/// are made, and arrays are padded; where the way is blocked nothing changes.
pub open spec fn set_path(v: JsonView, path: Seq<Seq<char>>, x: JsonView) -> JsonView
    decreases path.len(),
{
    if path.len() == 0 {
        v
    } else {
        let rest = path.drop_first();
        match v {
            JsonView::Object(o) => if rest.len() == 0 {
                JsonView::Object(with_key(o, path[0], x))
            } else {
                JsonView::Object(with_key(o, path[0], set_path(child(o, path[0]), rest, x)))
            },
            JsonView::Array(a) => match index_of(path[0]) {
                Some(i) => {
                    let b = padded(a, i + 1);
                    if rest.len() == 0 {
                        JsonView::Array(b.update(i as int, x))
                    } else {
                        JsonView::Array(b.update(i as int, set_path(b[i as int], rest, x)))
                    }
                },
                None => v,
            },
            _ => v,
        }
    }
}

/// The value of a key, or an empty object.
pub open spec fn child(o: Seq<(Seq<char>, JsonView)>, k: Seq<char>) -> JsonView {
    match lookup(o, k) {
        Some(v) => v,
        None => JsonView::Object(Seq::empty()),
    }
}

/// A value without what stands at a path.
pub open spec fn unset_path(v: JsonView, path: Seq<Seq<char>>) -> JsonView
    decreases path.len(),
{
    if path.len() == 0 {
        v
    } else {
        let rest = path.drop_first();
        match v {
            JsonView::Object(o) => if rest.len() == 0 {
                JsonView::Object(without_key(o, path[0]))
            } else if has_key(o, path[0]) {
                JsonView::Object(with_key(o, path[0], unset_path(child(o, path[0]), rest)))
            } else {
                v
            },
            JsonView::Array(a) => match index_of(path[0]) {
                Some(i) => if i >= a.len() {
                    v
                } else if rest.len() == 0 {
                    JsonView::Array(a.remove(i as int))
                } else {
                    JsonView::Array(a.update(i as int, unset_path(a[i as int], rest)))
                },
                None => v,
            },
            _ => v,
        }
    }
}

/// Whether something can be set at a path: on the way stand only objects and
/// arrays, and an index at each array.
pub open spec fn settable(v: JsonView, path: Seq<Seq<char>>) -> bool
    decreases path.len(),
{
    path.len() > 0 && {
        let rest = path.drop_first();
        match v {
            JsonView::Object(o) => rest.len() == 0 || settable(child(o, path[0]), rest),
            JsonView::Array(a) => match index_of(path[0]) {
                Some(i) => rest.len() == 0 || settable(padded(a, i + 1)[i as int], rest),
                None => false,
            },
            _ => false,
        }
    }
}

/// Whether only objects stand on the way along a path.
pub open spec fn through_objects(v: JsonView, path: Seq<Seq<char>>) -> bool
    decreases path.len(),
{
    path.len() > 0 ==> match v {
        JsonView::Object(o) => path.len() == 1 || match lookup(o, path[0]) {
            Some(next) => through_objects(next, path.drop_first()),
            None => true,
        },
        _ => false,
    }
}

/// What is set at a path is what is read there.
pub proof fn lemma_get_after_set(v: JsonView, path: Seq<Seq<char>>, x: JsonView)
    requires
        settable(v, path),
    ensures
        get_path(set_path(v, path, x), path) == Some(x),
    decreases path.len(),
{
    let rest = path.drop_first();
    match v {
        JsonView::Object(o) => {
            let y = if rest.len() == 0 {
                x
            } else {
                set_path(child(o, path[0]), rest, x)
            };
            let n = with_key(o, path[0], y);
            crate::object::lemma_lookup_with_key(o, path[0], y, path[0]);
            assert(set_path(v, path, x) == JsonView::Object(n));
            if rest.len() == 0 {
                assert(get_path(y, rest) == Some(x));
            } else {
                lemma_get_after_set(child(o, path[0]), rest, x);
            }
        },
        JsonView::Array(a) => {
            let i = index_of(path[0])->Some_0;
            let b = padded(a, i + 1);
            let y = if rest.len() == 0 {
                x
            } else {
                set_path(b[i as int], rest, x)
            };
            let n = b.update(i as int, y);
            assert(set_path(v, path, x) == JsonView::Array(n));
            assert(n[i as int] == y);
            if rest.len() == 0 {
                assert(get_path(y, rest) == Some(x));
            } else {
                lemma_get_after_set(b[i as int], rest, x);
            }
        },
        _ => {},
    }
}

/// Where the way is blocked, setting changes nothing that is on it: a scalar
/// stays as it is.
pub proof fn lemma_set_on_scalar(v: JsonView, path: Seq<Seq<char>>, x: JsonView)
    requires
        !(v is Object),
        !(v is Array),
    ensures
        set_path(v, path, x) == v,
        unset_path(v, path) == v,
{
}

/// Setting or unsetting at a path leaves the fields alone that the path does
/// not start with.
pub proof fn lemma_other_fields_stay(v: JsonView, path: Seq<Seq<char>>, x: JsonView, k: Seq<char>)
    requires
        path.len() > 0,
        k != path[0],
        well_formed(v),
    ensures
        field(set_path(v, path, x), k) == field(v, k),
        field(unset_path(v, path), k) == field(v, k),
{
    let rest = path.drop_first();
    if let JsonView::Object(o) = v {
        let y = if rest.len() == 0 {
            x
        } else {
            set_path(child(o, path[0]), rest, x)
        };
        crate::object::lemma_lookup_with_key(o, path[0], y, k);
        crate::object::lemma_lookup_with_key(
            o,
            path[0],
            unset_path(child(o, path[0]), rest),
            k,
        );
        crate::object::lemma_lookup_without_key(o, path[0], k);
    }
}

/// What was unset in nested objects is gone.
pub proof fn lemma_get_after_unset(v: JsonView, path: Seq<Seq<char>>)
    requires
        well_formed(v),
        path.len() > 0,
        through_objects(v, path),
    ensures
        get_path(unset_path(v, path), path) is None,
    decreases path.len(),
{
    let rest = path.drop_first();
    let o = v->Object_0;
    crate::object::lemma_key_at(o, path[0]);
    if rest.len() == 0 {
        crate::object::lemma_lookup_without_key(o, path[0], path[0]);
    } else if has_key(o, path[0]) {
        let y = unset_path(child(o, path[0]), rest);
        let n = with_key(o, path[0], y);
        crate::object::lemma_lookup_with_key(o, path[0], y, path[0]);
        assert(unset_path(v, path) == JsonView::Object(n));
        lemma_get_after_unset(child(o, path[0]), rest);
    }
}

/// What stands in a well-formed value is well-formed.
pub proof fn lemma_get_well_formed(v: JsonView, path: Seq<Seq<char>>)
    requires
        well_formed(v),
    ensures
        get_path(v, path) matches Some(x) ==> well_formed(x),
    decreases v,
{
    if path.len() > 0 {
        match v {
            JsonView::Object(o) => if has_key(o, path[0]) {
                lemma_get_well_formed(o[key_at(o, path[0]) as int].1, path.drop_first());
            },
            JsonView::Array(a) => match index_of(path[0]) {
                Some(i) => if i < a.len() {
                    lemma_get_well_formed(a[i as int], path.drop_first());
                },
                None => {
                    lemma_collected_well_formed(a, path);
                    let found = collected(a, path);
                    assert(found.len() > 0 ==> get_path(v, path) == Some(JsonView::Array(found)));
                    assert(well_formed(JsonView::Array(found)));
                },
            },
            _ => {},
        }
    }
}

proof fn lemma_collected_well_formed(a: Seq<JsonView>, path: Seq<Seq<char>>)
    requires
        forall|i: int| 0 <= i < a.len() ==> well_formed(#[trigger] a[i]),
    ensures
        forall|i: int|
            0 <= i < collected(a, path).len() ==> well_formed(#[trigger] collected(a, path)[i]),
    decreases a,
{
    if a.len() > 0 {
        let head = collected(a.drop_last(), path);
        lemma_collected_well_formed(a.drop_last(), path);
        lemma_get_well_formed(a.last(), path);
        assert(collected(a, path) == match get_path(a.last(), path) {
            Some(x) => head.push(x),
            None => head,
        });
    }
}

/// Setting keeps a value well-formed.
pub proof fn lemma_set_well_formed(v: JsonView, path: Seq<Seq<char>>, x: JsonView)
    requires
        well_formed(v),
        well_formed(x),
    ensures
        well_formed(set_path(v, path, x)),
    decreases path.len(),
{
    if path.len() > 0 {
        let rest = path.drop_first();
        match v {
            JsonView::Object(o) => {
                crate::object::lemma_key_at(o, path[0]);
                assert(well_formed(child(o, path[0])));
                let y = if rest.len() == 0 {
                    x
                } else {
                    lemma_set_well_formed(child(o, path[0]), rest, x);
                    set_path(child(o, path[0]), rest, x)
                };
                lemma_with_key_well_formed(o, path[0], y);
            },
            JsonView::Array(a) => match index_of(path[0]) {
                Some(i) => {
                    let b = padded(a, i + 1);
                    assert forall|j: int| 0 <= j < b.len() implies well_formed(#[trigger] b[j]) by {
                        if j < a.len() {
                            assert(b[j] == a[j]);
                        }
                    }
                    if rest.len() > 0 {
                        lemma_set_well_formed(b[i as int], rest, x);
                    }
                },
                None => {},
            },
            _ => {},
        }
    }
}

/// Unsetting keeps a value well-formed.
pub proof fn lemma_unset_well_formed(v: JsonView, path: Seq<Seq<char>>)
    requires
        well_formed(v),
    ensures
        well_formed(unset_path(v, path)),
    decreases path.len(),
{
    if path.len() > 0 {
        let rest = path.drop_first();
        match v {
            JsonView::Object(o) => {
                crate::object::lemma_key_at(o, path[0]);
                crate::object::lemma_lookup_without_key(o, path[0], path[0]);
                if rest.len() > 0 && has_key(o, path[0]) {
                    lemma_unset_well_formed(child(o, path[0]), rest);
                    lemma_with_key_well_formed(o, path[0], unset_path(child(o, path[0]), rest));
                } else if has_key(o, path[0]) {
                    let n = without_key(o, path[0]);
                    assert forall|j: int| 0 <= j < n.len() implies well_formed(
                        (#[trigger] n[j]).1,
                    ) by {
                        assert(n[j] == if j == key_at(o, path[0]) {
                            o[o.len() - 1]
                        } else {
                            o[j]
                        });
                    }
                }
            },
            JsonView::Array(a) => match index_of(path[0]) {
                Some(i) => if i < a.len() {
                    if rest.len() > 0 {
                        lemma_unset_well_formed(a[i as int], rest);
                    } else {
                        let n = a.remove(i as int);
                        assert forall|j: int| 0 <= j < n.len() implies well_formed(
                            #[trigger] n[j],
                        ) by {
                            assert(n[j] == if j < i {
                                a[j]
                            } else {
                                a[j + 1]
                            });
                        }
                    }
                },
                None => {},
            },
            _ => {},
        }
    }
}

/// Setting a key of a well-formed object keeps it well-formed.
pub proof fn lemma_with_key_well_formed(
    o: Seq<(Seq<char>, JsonView)>,
    k: Seq<char>,
    v: JsonView,
)
    requires
        well_formed(JsonView::Object(o)),
        well_formed(v),
    ensures
        well_formed(JsonView::Object(with_key(o, k, v))),
{
    let n = with_key(o, k, v);
    crate::object::lemma_lookup_with_key(o, k, v, k);
    crate::object::lemma_key_at(o, k);
    assert forall|j: int| 0 <= j < n.len() implies well_formed((#[trigger] n[j]).1) by {
        if j < o.len() {
            assert(n[j].1 == v || n[j] == o[j]);
        }
    }
    assert(distinct_keys(n));
}

/// The array index that a piece of a path stands for.
fn parse_index(piece: &str) -> (r: Option<usize>)
    ensures
        match r {
            Some(i) => index_of(piece@) == Some(i as nat),
            None => index_of(piece@) is None,
        },
{
    match parse_decimal(piece, usize::MAX as u64) {
        Some(n) => Some(n as usize),
        None => None,
    }
}

/// What stands at the path that the pieces from a position on make.
fn get_at(doc: &Json, parts: &Vec<String>, from: usize) -> (r: Option<Json>)
    requires
        from <= parts@.len(),
    ensures
        own_view(r) == get_path(doc@, texts(parts@).skip(from as int)),
    decreases doc,
{
    let ghost path = texts(parts@).skip(from as int);
    if from == parts.len() {
        return Some(doc.clone());
    }
    assert(path[0] == parts@[from as int]@);
    assert(path.drop_first() == texts(parts@).skip(from + 1));
    match doc {
        Json::Object(o) => {
            let i = key_index(o, parts[from].as_str());
            if i < o.len() {
                assert(decreases_to!(*doc => doc->Object_0));
                assert(decreases_to!(*o => o@[i as int]));
                assert(decreases_to!(o@[i as int] => o@[i as int].1));
                get_at(&o[i].1, parts, from + 1)
            } else {
                None
            }
        },
        Json::Array(a) => match parse_index(parts[from].as_str()) {
            Some(i) => if i < a.len() {
                assert(decreases_to!(*doc => doc->Array_0));
                assert(decreases_to!(*a => a@[i as int]));
                get_at(&a[i], parts, from + 1)
            } else {
                None
            },
            None => {
                let mut found: Vec<Json> = Vec::new();
                let mut i: usize = 0;
                assert(views(a@).take(0) == Seq::<JsonView>::empty());
                while i < a.len()
                    invariant
                        i <= a@.len(),
                        from <= parts@.len(),
                        *doc == Json::Array(*a),
                        path == texts(parts@).skip(from as int),
                        views(found@) == collected(views(a@).take(i as int), path),
                    decreases a@.len() - i,
                {
                    assert(decreases_to!(*doc => doc->Array_0));
                    assert(decreases_to!(*a => a@[i as int]));
                    assert(views(a@).take(i + 1).drop_last() == views(a@).take(i as int));
                    let ghost before = views(found@);
                    match get_at(&a[i], parts, from) {
                        Some(x) => {
                            found.push(x);
                            assert(views(found@) == before.push(x@));
                        },
                        None => {},
                    }
                    i = i + 1;
                }
                assert(views(a@).take(a@.len() as int) == views(a@));
                if found.len() == 0 {
                    None
                } else {
                    Some(Json::Array(found))
                }
            },
        },
        _ => None,
    }
}

/// What stands at a dotted path.
pub fn get_nested_value(doc: &Json, path: &str) -> (r: Option<Json>)
    ensures
        own_view(r) == get_path(doc@, pieces(path@, '.')),
{
    let parts = split(path, '.');
    assert(texts(parts@).skip(0) == texts(parts@));
    get_at(doc, &parts, 0)
}

/// Adds nulls until an array has an item at an index.
fn pad(a: &mut Vec<Json>, i: usize)
    ensures
        views(final(a)@) == padded(views(old(a)@), (i + 1) as nat),
{
    let ghost before = views(a@);
    while a.len() <= i
        invariant
            views(a@) == padded(before, a@.len()),
            before.len() <= a@.len(),
            a@.len() <= i + 1 || a@.len() == before.len(),
        decreases i + 1 - a@.len(),
    {
        let ghost now = views(a@);
        a.push(Json::Null);
        assert(views(a@) == now.push(JsonView::Null));
        assert(views(a@) == padded(before, a@.len()));
    }
}

/// Sets a value at the path that the pieces from a position on make.
fn set_at(doc: &mut Json, parts: &Vec<String>, from: usize, value: Json)
    requires
        from < parts@.len(),
    ensures
        final(doc)@ == set_path(old(doc)@, texts(parts@).skip(from as int), value@),
    decreases parts@.len() - from,
{
    let ghost path = texts(parts@).skip(from as int);
    let ghost rest = path.drop_first();
    assert(path[0] == parts@[from as int]@);
    assert(rest == texts(parts@).skip(from + 1));
    let last = from == parts.len() - 1;
    let piece = parts[from].as_str();
    match doc {
        Json::Object(o) => {
            if last {
                set_entry(o, piece, value);
            } else {
                let ghost before = entry_views(o@);
                let i = key_index(o, piece);
                if i == o.len() {
                    o.push((owned(piece), empty_object()));
                    assert(entry_views(o@) == before.push((path[0], child(before, path[0]))));
                }
                let ghost middle = entry_views(o@);
                set_at(&mut o[i].1, parts, from + 1, value);
                assert(entry_views(o@) == with_key(
                    before,
                    path[0],
                    set_path(child(before, path[0]), rest, value@),
                )) by {
                    crate::object::lemma_key_at(before, path[0]);
                    assert(entry_views(o@) == middle.update(
                        i as int,
                        (path[0], set_path(child(before, path[0]), rest, value@)),
                    ));
                }
            }
        },
        Json::Array(a) => {
            match parse_index(piece) {
                Some(i) => {
                    let ghost before = views(a@);
                    pad(a, i);
                    let ghost middle = views(a@);
                    assert(middle.len() > i);
                    if last {
                        let ghost x = value@;
                        a.set(i, value);
                        assert(views(a@) == middle.update(i as int, x));
                    } else {
                        let ghost x = value@;
                        set_at(&mut a[i], parts, from + 1, value);
                        assert(views(a@) == middle.update(
                            i as int,
                            set_path(middle[i as int], rest, x),
                        ));
                    }
                },
                None => {},
            }
        },
        _ => {},
    }
}

/// Sets a value at a dotted path.
pub fn set_nested_value(doc: &mut Json, path: &str, value: Json)
    ensures
        final(doc)@ == set_path(old(doc)@, pieces(path@, '.'), value@),
{
    let parts = split(path, '.');
    assert(texts(parts@).skip(0) == texts(parts@));
    set_at(doc, &parts, 0, value);
}

/// Removes what stands at the path that the pieces from a position on make.
fn unset_at(doc: &mut Json, parts: &Vec<String>, from: usize)
    requires
        from < parts@.len(),
    ensures
        final(doc)@ == unset_path(old(doc)@, texts(parts@).skip(from as int)),
    decreases parts@.len() - from,
{
    let ghost path = texts(parts@).skip(from as int);
    let ghost rest = path.drop_first();
    assert(path[0] == parts@[from as int]@);
    assert(rest == texts(parts@).skip(from + 1));
    let last = from == parts.len() - 1;
    let piece = parts[from].as_str();
    match doc {
        Json::Object(o) => {
            if last {
                remove_entry(o, piece);
            } else {
                let ghost before = entry_views(o@);
                let i = key_index(o, piece);
                if i < o.len() {
                    unset_at(&mut o[i].1, parts, from + 1);
                    assert(entry_views(o@) == with_key(
                        before,
                        path[0],
                        unset_path(child(before, path[0]), rest),
                    )) by {
                        crate::object::lemma_key_at(before, path[0]);
                    }
                }
            }
        },
        Json::Array(a) => {
            match parse_index(piece) {
                Some(i) => {
                    if i < a.len() {
                        let ghost before = views(a@);
                        if last {
                            a.remove(i);
                            assert(views(a@) == before.remove(i as int));
                        } else {
                            unset_at(&mut a[i], parts, from + 1);
                            assert(views(a@) == before.update(
                                i as int,
                                unset_path(before[i as int], rest),
                            ));
                        }
                    }
                },
                None => {},
            }
        },
        _ => {},
    }
}

/// Removes what stands at a dotted path.
pub fn unset_nested_value(doc: &mut Json, path: &str)
    ensures
        final(doc)@ == unset_path(old(doc)@, pieces(path@, '.')),
{
    let parts = split(path, '.');
    assert(texts(parts@).skip(0) == texts(parts@));
    unset_at(doc, &parts, 0);
}

} // verus!
