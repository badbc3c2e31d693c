//! Which fields of a document are shown.

use crate::json::{entry_views, Json, JsonView};
use crate::object::{bool_of, empty_object, field, has_key, int_of, key_at, well_formed};
use crate::path::{
    get_nested_value, get_path, set_nested_value, set_path, unset_nested_value, unset_path,
};
use crate::text::{pieces, same_text};
use vstd::prelude::*;

verus! {

broadcast use crate::json::group_json_views;

/// Whether a mark asks for a field.
pub open spec fn includes(mark: JsonView) -> bool {
    bool_of(mark) == Some(true) || int_of(mark) == Some(1i64)
}

/// Whether a mark asks to leave a field out.
pub open spec fn excludes(mark: JsonView) -> bool {
    bool_of(mark) == Some(false) || int_of(mark) == Some(0i64)
}

pub open spec fn any_includes(o: Seq<(Seq<char>, JsonView)>) -> bool {
    exists|i: int| 0 <= i < o.len() && includes((#[trigger] o[i]).1)
}

pub open spec fn any_excludes(o: Seq<(Seq<char>, JsonView)>) -> bool {
    exists|i: int| 0 <= i < o.len() && excludes((#[trigger] o[i]).1)
}

/// The object with nothing but the `_id` of a document.
pub open spec fn only_id(doc: JsonView) -> JsonView {
    match field(doc, "_id"@) {
        Some(id) => JsonView::Object(seq![("_id"@, id)]),
        None => JsonView::Object(Seq::empty()),
    }
}

/// The object with the `_id` of a document and what it has at the paths that
/// are asked for.
pub open spec fn picked(o: Seq<(Seq<char>, JsonView)>, doc: JsonView) -> JsonView
    decreases o.len(),
{
    if o.len() == 0 {
        only_id(doc)
    } else {
        let out = picked(o.drop_last(), doc);
        let path = pieces(o.last().0, '.');
        if o.last().0 != "_id"@ && includes(o.last().1) && get_path(doc, path) is Some {
            set_path(out, path, get_path(doc, path)->Some_0)
        } else {
            out
        }
    }
}

/// A document without what stands at the named paths.
pub open spec fn stripped(o: Seq<(Seq<char>, JsonView)>, doc: JsonView) -> JsonView
    decreases o.len(),
{
    if o.len() == 0 {
        doc
    } else {
        unset_path(stripped(o.drop_last(), doc), pieces(o.last().0, '.'))
    }
}

/// What a projection shows of a document.  A projection that asks for fields
/// picks them; one that leaves fields out strips them; one that does both, or
/// neither, shows the document as it is.
pub open spec fn projected(projection: JsonView, doc: JsonView) -> JsonView {
    match projection {
        JsonView::Object(o) => if any_includes(o) && !any_excludes(o) {
            picked(o, doc)
        } else if any_excludes(o) && !any_includes(o) {
            stripped(o, doc)
        } else {
            doc
        },
        _ => doc,
    }
}

fn is_included(mark: &Json) -> (r: bool)
    ensures
        r == includes(mark@),
{
    matches!(mark.as_bool(), Some(true)) || matches!(mark.as_i64(), Some(1))
}

fn is_excluded(mark: &Json) -> (r: bool)
    ensures
        r == excludes(mark@),
{
    matches!(mark.as_bool(), Some(false)) || matches!(mark.as_i64(), Some(0))
}

fn has_included(o: &Vec<(String, Json)>) -> (r: bool)
    ensures
        r == any_includes(entry_views(o@)),
{
    let mut i: usize = 0;
    while i < o.len()
        invariant
            i <= o@.len(),
            forall|j: int| 0 <= j < i ==> !includes((#[trigger] entry_views(o@)[j]).1),
        decreases o@.len() - i,
    {
        if is_included(&o[i].1) {
            assert(includes(entry_views(o@)[i as int].1));
            return true;
        }
        i = i + 1;
    }
    false
}

fn has_excluded(o: &Vec<(String, Json)>) -> (r: bool)
    ensures
        r == any_excludes(entry_views(o@)),
{
    let mut i: usize = 0;
    while i < o.len()
        invariant
            i <= o@.len(),
            forall|j: int| 0 <= j < i ==> !excludes((#[trigger] entry_views(o@)[j]).1),
        decreases o@.len() - i,
    {
        if is_excluded(&o[i].1) {
            assert(excludes(entry_views(o@)[i as int].1));
            return true;
        }
        i = i + 1;
    }
    false
}

/// What a projection shows of a document.
pub fn apply_projection(doc: &Json, projection: &Json) -> (r: Json)
    ensures
        r@ == projected(projection@, doc@),
{
    match projection {
        Json::Object(o) => {
            let ghost e = entry_views(o@);
            let wanted = has_included(o);
            let unwanted = has_excluded(o);
            if wanted && !unwanted {
                let mut out = empty_object();
                match doc.get("_id") {
                    Some(id) => {
                        let mut only: Vec<(String, Json)> = Vec::new();
                        only.push((crate::text::owned("_id"), id.clone()));
                        assert(entry_views(only@) == seq![("_id"@, id@)]);
                        out = Json::Object(only);
                    },
                    None => {},
                }
                let mut i: usize = 0;
                assert(e.take(0) == Seq::<(Seq<char>, JsonView)>::empty());
                while i < o.len()
                    invariant
                        i <= o@.len(),
                        e == entry_views(o@),
                        out@ == picked(e.take(i as int), doc@),
                    decreases o@.len() - i,
                {
                    assert(e.take(i + 1).drop_last() == e.take(i as int));
                    let key = o[i].0.as_str();
                    if !same_text(key, "_id") && is_included(&o[i].1) {
                        match get_nested_value(doc, key) {
                            Some(x) => set_nested_value(&mut out, key, x),
                            None => {},
                        }
                    }
                    i = i + 1;
                }
                assert(e.take(e.len() as int) == e);
                return out;
            }
            if unwanted && !wanted {
                let mut out = doc.clone();
                let mut i: usize = 0;
                assert(e.take(0) == Seq::<(Seq<char>, JsonView)>::empty());
                while i < o.len()
                    invariant
                        i <= o@.len(),
                        e == entry_views(o@),
                        out@ == stripped(e.take(i as int), doc@),
                    decreases o@.len() - i,
                {
                    assert(e.take(i + 1).drop_last() == e.take(i as int));
                    unset_nested_value(&mut out, o[i].0.as_str());
                    i = i + 1;
                }
                assert(e.take(e.len() as int) == e);
                return out;
            }
            doc.clone()
        },
        _ => doc.clone(),
    }
}

/// Whether a key holds no dot, so that it is a path of one piece.
pub open spec fn is_plain(k: Seq<char>) -> bool {
    !k.contains('.')
}

/// A key without dots is a path of one piece.
pub proof fn lemma_plain_path(k: Seq<char>)
    requires
        is_plain(k),
    ensures
        pieces(k, '.') == seq![k],
{
    crate::text::lemma_pieces_single(k, '.');
}

/// Whether a projection asks for a field by a plain key.
pub open spec fn asks_for(o: Seq<(Seq<char>, JsonView)>, k: Seq<char>) -> bool {
    exists|i: int| 0 <= i < o.len() && (#[trigger] o[i]).0 == k && includes(o[i].1)
}

/// A projection that asks for fields by plain keys shows those fields of an
/// object and its `_id`, each with its value, and no others.
pub proof fn lemma_picked_fields(o: Seq<(Seq<char>, JsonView)>, doc: JsonView, k: Seq<char>)
    requires
        doc is Object,
        well_formed(doc),
        forall|i: int| 0 <= i < o.len() ==> is_plain((#[trigger] o[i]).0),
    ensures
        picked(o, doc) is Object,
        field(picked(o, doc), k) == if k == "_id"@ || asks_for(o, k) {
            field(doc, k)
        } else {
            None
        },
    decreases o.len(),
{
    let id = "_id"@;
    if o.len() == 0 {
        let only = only_id(doc)->Object_0;
        crate::object::lemma_key_at(only, k);
        if field(doc, id) is Some {
            assert(only[0].0 == id);
            assert(only.len() == 1);
        }
    } else {
        let d = o.drop_last();
        let key = o.last().0;
        assert(o[o.len() - 1] == o.last());
        lemma_picked_fields(d, doc, k);
        lemma_plain_path(key);
        let path = seq![key];
        assert(path.drop_first() == Seq::<Seq<char>>::empty());
        assert(get_path(doc, path) == field(doc, key)) by {
            if has_key(doc->Object_0, key) {
                let x = doc->Object_0[key_at(doc->Object_0, key) as int].1;
                assert(get_path(x, path.drop_first()) == Some(x));
            }
        }
        let out = picked(d, doc);
        if field(doc, key) is Some {
            crate::object::lemma_lookup_with_key(
                out->Object_0,
                key,
                field(doc, key)->Some_0,
                k,
            );
        }
        assert(asks_for(d, k) ==> asks_for(o, k)) by {
            if asks_for(d, k) {
                let i = choose|i: int|
                    0 <= i < d.len() && (#[trigger] d[i]).0 == k && includes(d[i].1);
                assert(o[i] == d[i]);
            }
        }
        assert(asks_for(o, k) ==> asks_for(d, k) || (key == k && includes(o.last().1))) by {
            if asks_for(o, k) {
                let i = choose|i: int|
                    0 <= i < o.len() && (#[trigger] o[i]).0 == k && includes(o[i].1);
                if i < d.len() {
                    assert(d[i] == o[i]);
                }
            }
        }
    }
}

/// A projection that leaves fields out by plain keys leaves out those fields of
/// an object and keeps all others.
pub proof fn lemma_stripped_fields(o: Seq<(Seq<char>, JsonView)>, doc: JsonView, k: Seq<char>)
    requires
        doc is Object,
        well_formed(doc),
        forall|i: int| 0 <= i < o.len() ==> is_plain((#[trigger] o[i]).0),
    ensures
        stripped(o, doc) is Object,
        well_formed(stripped(o, doc)),
        field(stripped(o, doc), k) == if exists|i: int| 0 <= i < o.len() && (#[trigger] o[i]).0 == k {
            None
        } else {
            field(doc, k)
        },
    decreases o.len(),
{
    if o.len() > 0 {
        let d = o.drop_last();
        let key = o.last().0;
        assert(o[o.len() - 1] == o.last());
        lemma_stripped_fields(d, doc, k);
        lemma_plain_path(key);
        let path = seq![key];
        assert(path.drop_first() == Seq::<Seq<char>>::empty());
        let out = stripped(d, doc);
        crate::path::lemma_unset_well_formed(out, path);
        crate::object::lemma_lookup_without_key(out->Object_0, key, k);
        assert forall|i: int| 0 <= i < d.len() && (#[trigger] d[i]).0 == k implies o[i].0 == k by {
            assert(d[i] == o[i]);
        }
        assert forall|i: int| 0 <= i < o.len() && (#[trigger] o[i]).0 == k implies i == d.len()
            || d[i].0 == k by {
            if i < d.len() {
                assert(d[i] == o[i]);
            }
        }
    }
}

} // verus!
