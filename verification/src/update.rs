//! Changing documents by update operators.

use crate::filter::{holds_alike, match_filter, selects};
use crate::float;
use crate::json::{entry_views, views, Json, JsonView, Numeral};
use crate::object::{field, float_of, has_key, json_eq, key_at, opt_view, own_view, same_json, str_of, well_formed, with_key};
use crate::path::{
    child, get_nested_value, get_path, index_of, padded, set_nested_value, set_path, settable, unset_nested_value,
    unset_path,
};
use crate::text::{pieces, same_text};
use crate::value::{equivalent, value_eq};
use vstd::prelude::*;

verus! {

broadcast use crate::json::group_json_views;

/// A document under change, and whether something counts as changed.
#[verifier::ext_equal]
pub struct Edit {
    pub doc: JsonView,
    pub modified: bool,
}

/// The finite number that a value is, or zero.
pub open spec fn amount(v: Option<JsonView>) -> u64 {
    match v {
        Some(x) => match float_of(x) {
            Some(b) => b,
            None => 0,
        },
        None => 0,
    }
}

/// The JSON number of a float, or zero where it is not finite.
pub open spec fn number_or_zero(bits: u64) -> JsonView {
    if float::is_finite(bits) {
        JsonView::Number(Numeral::Float(bits))
    } else {
        JsonView::Number(Numeral::PosInt(0))
    }
}

/// The items of an array; what is missing or no array has none.
pub open spec fn items_of(v: Option<JsonView>) -> Seq<JsonView> {
    match v {
        Some(JsonView::Array(a)) => a,
        _ => Seq::empty(),
    }
}

/// The values that an operand adds: those listed under `$each`, or itself.
pub open spec fn operands(v: JsonView) -> Seq<JsonView> {
    match field(v, "$each"@) {
        Some(JsonView::Array(a)) => a,
        _ => seq![v],
    }
}

/// Whether an item is to be pulled: an object selects as a filter, anything
/// else by equality.
pub open spec fn pulled(v: JsonView, item: JsonView) -> bool {
    match v {
        JsonView::Object(_) => selects(v, item),
        _ => json_eq(item, v),
    }
}

/// The items that are not pulled.
pub open spec fn kept(a: Seq<JsonView>, v: JsonView) -> Seq<JsonView>
    decreases a.len(),
{
    if a.len() == 0 {
        a
    } else if pulled(v, a.last()) {
        kept(a.drop_last(), v)
    } else {
        kept(a.drop_last(), v).push(a.last())
    }
}

/// A list with those values added that count as equal to none in it.
pub open spec fn joined(a: Seq<JsonView>, new: Seq<JsonView>) -> Seq<JsonView>
    decreases new.len(),
{
    if new.len() == 0 {
        a
    } else {
        let b = joined(a, new.drop_last());
        if holds_alike(b, new.last()) {
            b
        } else {
            b.push(new.last())
        }
    }
}

/// What one entry of an update operator does.
pub open spec fn entry_edit(op: Seq<char>, s: Edit, k: Seq<char>, v: JsonView) -> Edit {
    let path = pieces(k, '.');
    let now = get_path(s.doc, path);
    if op == "$set"@ {
        Edit { doc: set_path(s.doc, path, v), modified: true }
    } else if op == "$unset"@ {
        Edit { doc: unset_path(s.doc, path), modified: true }
    } else if op == "$inc"@ {
        Edit {
            doc: set_path(
                s.doc,
                path,
                number_or_zero(float::sum(amount(now), amount(Some(v)))),
            ),
            modified: true,
        }
    } else if op == "$mul"@ {
        Edit {
            doc: set_path(
                s.doc,
                path,
                number_or_zero(float::product(amount(now), amount(Some(v)))),
            ),
            modified: true,
        }
    } else if op == "$push"@ {
        Edit {
            doc: set_path(s.doc, path, JsonView::Array(items_of(now) + operands(v))),
            modified: true,
        }
    } else if op == "$pull"@ {
        let left = kept(items_of(now), v);
        if left.len() != items_of(now).len() {
            Edit { doc: set_path(s.doc, path, JsonView::Array(left)), modified: true }
        } else {
            s
        }
    } else if op == "$addToSet"@ {
        let all = joined(items_of(now), operands(v));
        Edit {
            doc: set_path(s.doc, path, JsonView::Array(all)),
            modified: s.modified || all.len() != items_of(now).len(),
        }
    } else if op == "$rename"@ {
        match now {
            Some(x) => {
                let to = match str_of(v) {
                    Some(t) => t,
                    None => k,
                };
                Edit {
                    doc: unset_path(set_path(s.doc, pieces(to, '.'), x), path),
                    modified: true,
                }
            },
            None => s,
        }
    } else {
        s
    }
}

/// What the entries of an update operator do, one after the other.
pub open spec fn entries_edit(op: Seq<char>, s: Edit, o: Seq<(Seq<char>, JsonView)>) -> Edit
    decreases o.len(),
{
    if o.len() == 0 {
        s
    } else {
        entry_edit(op, entries_edit(op, s, o.drop_last()), o.last().0, o.last().1)
    }
}

/// What the operators of an update do, one after the other.  An operator
/// without an object does nothing.
pub open spec fn operators_edit(s: Edit, o: Seq<(Seq<char>, JsonView)>) -> Edit
    decreases o.len(),
{
    if o.len() == 0 {
        s
    } else {
        let t = operators_edit(s, o.drop_last());
        match o.last().1 {
            JsonView::Object(entries) => entries_edit(o.last().0, t, entries),
            _ => t,
        }
    }
}

/// What an update does.
pub open spec fn edited(update: JsonView, doc: JsonView) -> Edit {
    let s = Edit { doc, modified: false };
    match update {
        JsonView::Object(o) => operators_edit(s, o),
        _ => s,
    }
}

fn amount_of(v: Option<&Json>) -> (r: u64)
    ensures
        r == amount(opt_view(v)),
        float::is_finite(r),
{
    match v {
        Some(x) => match x.as_float() {
            Some(b) => b,
            None => 0,
        },
        None => 0,
    }
}

fn number_value(bits: u64) -> (r: Json)
    ensures
        r@ == number_or_zero(bits),
{
    if float::finite(bits) {
        Json::Number(Numeral::Float(bits))
    } else {
        Json::Number(Numeral::PosInt(0))
    }
}

fn array_items(v: Option<Json>) -> (r: Vec<Json>)
    ensures
        views(r@) == items_of(own_view(v)),
{
    match v {
        Some(Json::Array(a)) => a,
        _ => {
            let r: Vec<Json> = Vec::new();
            assert(views(r@) == Seq::<JsonView>::empty());
            r
        },
    }
}

/// A copy of a list of values.
pub fn copy_list(a: &Vec<Json>) -> (r: Vec<Json>)
    ensures
        views(r@) == views(a@),
{
    let mut r: Vec<Json> = Vec::new();
    let mut i: usize = 0;
    while i < a.len()
        invariant
            i <= a@.len(),
            views(r@) == views(a@).take(i as int),
        decreases a@.len() - i,
    {
        let ghost before = views(r@);
        let x = a[i].clone();
        let ghost y = x@;
        r.push(x);
        assert(views(r@) == before.push(y));
        assert(views(a@).take(i + 1) == views(a@).take(i as int).push(y));
        i = i + 1;
    }
    assert(views(a@).take(i as int) == views(a@));
    r
}

fn operand_list(v: &Json) -> (r: Vec<Json>)
    ensures
        views(r@) == operands(v@),
{
    match v.get("$each") {
        Some(Json::Array(a)) => copy_list(a),
        _ => {
            let mut r: Vec<Json> = Vec::new();
            r.push(v.clone());
            assert(views(r@) == seq![v@]);
            r
        },
    }
}

fn keep_unpulled(a: Vec<Json>, v: &Json) -> (r: Vec<Json>)
    ensures
        views(r@) == kept(views(a@), v@),
{
    let mut r: Vec<Json> = Vec::new();
    let mut i: usize = 0;
    assert(views(r@) == views(a@).take(0));
    while i < a.len()
        invariant
            i <= a@.len(),
            views(r@) == kept(views(a@).take(i as int), v@),
        decreases a@.len() - i,
    {
        assert(views(a@).take(i + 1).drop_last() == views(a@).take(i as int));
        let gone = if v.is_object() {
            match_filter(&a[i], v)
        } else {
            same_json(&a[i], v)
        };
        if !gone {
            let ghost before = views(r@);
            r.push(a[i].clone());
            assert(views(r@) == before.push(views(a@)[i as int]));
        }
        i = i + 1;
    }
    assert(views(a@).take(i as int) == views(a@));
    r
}

fn join(a: Vec<Json>, new: &Vec<Json>) -> (r: Vec<Json>)
    ensures
        views(r@) == joined(views(a@), views(new@)),
{
    let ghost start = views(a@);
    let mut r = a;
    let mut i: usize = 0;
    assert(views(new@).take(0) == Seq::<JsonView>::empty());
    while i < new.len()
        invariant
            i <= new@.len(),
            views(r@) == joined(start, views(new@).take(i as int)),
        decreases new@.len() - i,
    {
        assert(views(new@).take(i + 1).drop_last() == views(new@).take(i as int));
        let ghost before = views(r@);
        let mut found = false;
        let mut j: usize = 0;
        while j < r.len() && !found
            invariant
                j <= r@.len(),
                i < new@.len(),
                found == exists|n: int|
                    0 <= n < j && equivalent(#[trigger] views(r@)[n], views(new@)[i as int]),
            decreases r@.len() - j,
        {
            if value_eq(Some(&r[j]), Some(&new[i])) {
                assert(equivalent(views(r@)[j as int], views(new@)[i as int]));
                found = true;
            }
            j = j + 1;
        }
        assert(found == holds_alike(before, views(new@)[i as int]));
        if !found {
            r.push(new[i].clone());
            assert(views(r@) == before.push(views(new@)[i as int]));
        }
        i = i + 1;
    }
    assert(views(new@).take(i as int) == views(new@));
    r
}

/// Does what one entry of an update operator asks for.
fn apply_entry(op: &str, doc: &mut Json, modified: &mut bool, k: &str, v: &Json)
    ensures
        (Edit { doc: final(doc)@, modified: *final(modified) }) == entry_edit(
            op@,
            Edit { doc: old(doc)@, modified: *old(modified) },
            k@,
            v@,
        ),
{
    if same_text(op, "$set") {
        set_nested_value(doc, k, v.clone());
        *modified = true;
    } else if same_text(op, "$unset") {
        unset_nested_value(doc, k);
        *modified = true;
    } else if same_text(op, "$inc") {
        let now = get_nested_value(doc, k);
        let total = float::add_floats(amount_of(now.as_ref()), amount_of(Some(v)));
        set_nested_value(doc, k, number_value(total));
        *modified = true;
    } else if same_text(op, "$mul") {
        let now = get_nested_value(doc, k);
        let total = float::multiply_floats(amount_of(now.as_ref()), amount_of(Some(v)));
        set_nested_value(doc, k, number_value(total));
        *modified = true;
    } else if same_text(op, "$push") {
        let mut items = array_items(get_nested_value(doc, k));
        let ghost start = views(items@);
        let mut new = operand_list(v);
        let ghost more = views(new@);
        items.append(&mut new);
        assert(views(items@) == start + more);
        set_nested_value(doc, k, Json::Array(items));
        *modified = true;
    } else if same_text(op, "$pull") {
        let items = array_items(get_nested_value(doc, k));
        let before = items.len();
        let left = keep_unpulled(items, v);
        if left.len() != before {
            set_nested_value(doc, k, Json::Array(left));
            *modified = true;
        }
    } else if same_text(op, "$addToSet") {
        let items = array_items(get_nested_value(doc, k));
        let before = items.len();
        let all = join(items, &operand_list(v));
        if all.len() != before {
            *modified = true;
        }
        set_nested_value(doc, k, Json::Array(all));
    } else if same_text(op, "$rename") {
        match get_nested_value(doc, k) {
            Some(x) => {
                let to = match v.as_str() {
                    Some(t) => t,
                    None => k,
                };
                set_nested_value(doc, to, x);
                unset_nested_value(doc, k);
                *modified = true;
            },
            None => {},
        }
    }
}

/// Does what the entries of an update operator ask for.
fn apply_entries(op: &str, doc: &mut Json, modified: &mut bool, o: &Vec<(String, Json)>)
    ensures
        (Edit { doc: final(doc)@, modified: *final(modified) }) == entries_edit(
            op@,
            Edit { doc: old(doc)@, modified: *old(modified) },
            entry_views(o@),
        ),
{
    let ghost start = Edit { doc: doc@, modified: *modified };
    let ghost e = entry_views(o@);
    let mut i: usize = 0;
    assert(e.take(0) == Seq::<(Seq<char>, JsonView)>::empty());
    while i < o.len()
        invariant
            i <= o@.len(),
            e == entry_views(o@),
            (Edit { doc: doc@, modified: *modified }) == entries_edit(op@, start, e.take(i as int)),
        decreases o@.len() - i,
    {
        assert(e.take(i + 1).drop_last() == e.take(i as int));
        assert(e.take(i + 1).last() == e[i as int]);
        apply_entry(op, doc, modified, o[i].0.as_str(), &o[i].1);
        i = i + 1;
    }
    assert(e.take(i as int) == e);
}

/// Does what an update asks for; the result is whether something counts as
/// changed.
pub fn apply_update_operators(doc: &mut Json, update: &Json) -> (r: bool)
    ensures
        final(doc)@ == edited(update@, old(doc)@).doc,
        r == edited(update@, old(doc)@).modified,
{
    let mut modified = false;
    match update {
        Json::Object(o) => {
            let ghost start = Edit { doc: doc@, modified };
            let ghost e = entry_views(o@);
            let mut i: usize = 0;
            assert(e.take(0) == Seq::<(Seq<char>, JsonView)>::empty());
            while i < o.len()
                invariant
                    i <= o@.len(),
                    e == entry_views(o@),
                    (Edit { doc: doc@, modified }) == operators_edit(start, e.take(i as int)),
                decreases o@.len() - i,
            {
                assert(e.take(i + 1).drop_last() == e.take(i as int));
                assert(e.take(i + 1).last() == e[i as int]);
                match &o[i].1 {
                    Json::Object(entries) => apply_entries(
                        o[i].0.as_str(),
                        doc,
                        &mut modified,
                        entries,
                    ),
                    _ => {},
                }
                i = i + 1;
            }
            assert(e.take(i as int) == e);
        },
        _ => {},
    }
    modified
}

/// An update with one operator and one entry.
pub open spec fn single_update(op: Seq<char>, k: Seq<char>, v: JsonView) -> JsonView {
    JsonView::Object(seq![(op, JsonView::Object(seq![(k, v)]))])
}

/// An update with one operator and one entry does what the entry does.
pub proof fn lemma_single_update(op: Seq<char>, k: Seq<char>, v: JsonView, doc: JsonView)
    ensures
        edited(single_update(op, k, v), doc) == entry_edit(
            op,
            Edit { doc, modified: false },
            k,
            v,
        ),
{
    let s = Edit { doc, modified: false };
    let entries = seq![(k, v)];
    let o = seq![(op, JsonView::Object(entries))];
    assert(entries.drop_last() == Seq::<(Seq<char>, JsonView)>::empty());
    assert(o.drop_last() == Seq::<(Seq<char>, JsonView)>::empty());
    assert(entries_edit(op, s, entries.drop_last()) == s);
    assert(operators_edit(s, o.drop_last()) == s);
    assert(entries_edit(op, s, entries) == entry_edit(op, s, k, v));
    assert(operators_edit(s, o) == entries_edit(op, s, entries));
}

/// What `$set` sets is read back, and what `$inc` leaves is the sum, at every
/// path that can be set.
pub proof fn lemma_set_and_inc_read_back(k: Seq<char>, v: JsonView, doc: JsonView)
    requires
        settable(doc, pieces(k, '.')),
    ensures
        get_path(edited(single_update("$set"@, k, v), doc).doc, pieces(k, '.')) == Some(v),
        get_path(edited(single_update("$inc"@, k, v), doc).doc, pieces(k, '.')) == Some(
            number_or_zero(
                float::sum(amount(get_path(doc, pieces(k, '.'))), amount(Some(v))),
            ),
        ),
        edited(single_update("$set"@, k, v), doc).modified,
        edited(single_update("$inc"@, k, v), doc).modified,
{
    lemma_single_update("$set"@, k, v, doc);
    lemma_single_update("$inc"@, k, v, doc);
    reveal_strlit("$set");
    reveal_strlit("$inc");
    reveal_strlit("$unset");
    assert("$inc"@[1] == 'i');
    assert("$set"@[1] == 's');
    assert("$inc"@.len() != "$unset"@.len());
    crate::path::lemma_get_after_set(doc, pieces(k, '.'), v);
    crate::path::lemma_get_after_set(
        doc,
        pieces(k, '.'),
        number_or_zero(float::sum(amount(get_path(doc, pieces(k, '.'))), amount(Some(v)))),
    );
}

/// No item that is to be pulled is left, and every other item is.
pub proof fn lemma_kept(a: Seq<JsonView>, v: JsonView)
    ensures
        kept(a, v).len() <= a.len(),
        forall|i: int| 0 <= i < kept(a, v).len() ==> !pulled(v, #[trigger] kept(a, v)[i]),
        forall|x: JsonView| #[trigger] kept(a, v).contains(x) ==> a.contains(x),
        forall|x: JsonView| #[trigger] a.contains(x) && !pulled(v, x) ==> kept(a, v).contains(x),
        kept(a, v).len() == a.len() ==> kept(a, v) == a,
    decreases a.len(),
{
    if a.len() > 0 {
        let d = a.drop_last();
        let k = kept(d, v);
        lemma_kept(d, v);
        assert(kept(a, v) == if pulled(v, a.last()) {
            k
        } else {
            k.push(a.last())
        });
        assert(d.push(a.last()) == a);
        assert forall|x: JsonView| #[trigger] kept(a, v).contains(x) implies a.contains(x) by {
            let i = choose|i: int| 0 <= i < kept(a, v).len() && kept(a, v)[i] == x;
            if i < k.len() {
                assert(k[i] == x);
                assert(k.contains(x));
                assert(d.contains(x));
                let j = choose|j: int| 0 <= j < d.len() && d[j] == x;
                assert(a[j] == x);
            } else {
                assert(a[a.len() - 1] == x);
            }
        }
        assert forall|x: JsonView| #[trigger] a.contains(x) && !pulled(v, x) implies kept(
            a,
            v,
        ).contains(x) by {
            let i = choose|i: int| 0 <= i < a.len() && a[i] == x;
            if i < d.len() {
                assert(d[i] == x);
                assert(d.contains(x));
                assert(k.contains(x));
                let j = choose|j: int| 0 <= j < k.len() && k[j] == x;
                assert(kept(a, v)[j] == x);
            } else {
                assert(kept(a, v)[k.len() as int] == x);
            }
        }
    }
}

proof fn lemma_holds_alike_push(a: Seq<JsonView>, x: JsonView, v: JsonView)
    requires
        holds_alike(a, v),
    ensures
        holds_alike(a.push(x), v),
{
    let i = choose|i: int| 0 <= i < a.len() && equivalent(#[trigger] a[i], v);
    assert(a.push(x)[i] == a[i]);
}

/// After values were joined to a list, the list holds each of them, and still
/// starts as it did.
pub proof fn lemma_joined(a: Seq<JsonView>, new: Seq<JsonView>)
    requires
        forall|i: int| 0 <= i < new.len() ==> well_formed(#[trigger] new[i]),
    ensures
        joined(a, new).len() >= a.len(),
        joined(a, new).take(a.len() as int) == a,
        forall|i: int| 0 <= i < new.len() ==> holds_alike(joined(a, new), #[trigger] new[i]),
    decreases new.len(),
{
    if new.len() > 0 {
        let d = new.drop_last();
        let b = joined(a, d);
        let c = joined(a, new);
        assert forall|i: int| 0 <= i < d.len() implies well_formed(#[trigger] d[i]) by {
            assert(d[i] == new[i]);
        }
        lemma_joined(a, d);
        assert(c.take(a.len() as int) == b.take(a.len() as int));
        assert forall|i: int| 0 <= i < new.len() implies holds_alike(c, #[trigger] new[i]) by {
            if i < d.len() {
                assert(d[i] == new[i]);
                if !holds_alike(b, new.last()) {
                    lemma_holds_alike_push(b, new.last(), new[i]);
                }
            } else if !holds_alike(b, new.last()) {
                let x = new.last();
                assert(new[i] == x);
                crate::value::lemma_equivalence(x, x, x);
                assert(equivalent(c[b.len() as int], x));
            }
        }
    } else {
        assert(a.take(a.len() as int) == a);
    }
}

/// Joining values that a list holds already changes nothing.
pub proof fn lemma_join_held(a: Seq<JsonView>, new: Seq<JsonView>)
    requires
        forall|i: int| 0 <= i < new.len() ==> holds_alike(a, #[trigger] new[i]),
    ensures
        joined(a, new) == a,
    decreases new.len(),
{
    if new.len() > 0 {
        let d = new.drop_last();
        assert forall|i: int| 0 <= i < d.len() implies holds_alike(a, #[trigger] d[i]) by {
            assert(d[i] == new[i]);
        }
        lemma_join_held(a, d);
        assert(new[new.len() - 1] == new.last());
    }
}

/// Joining the same values a second time changes nothing.
pub proof fn lemma_join_idempotent(a: Seq<JsonView>, new: Seq<JsonView>)
    requires
        forall|i: int| 0 <= i < new.len() ==> well_formed(#[trigger] new[i]),
    ensures
        joined(joined(a, new), new) == joined(a, new),
{
    lemma_joined(a, new);
    lemma_join_held(joined(a, new), new);
}

proof fn lemma_joined_same_len(a: Seq<JsonView>, new: Seq<JsonView>)
    ensures
        joined(a, new).len() >= a.len(),
        joined(a, new).len() == a.len() ==> joined(a, new) == a,
        a.len() == 0 && new.len() > 0 ==> joined(a, new).len() > 0,
    decreases new.len(),
{
    if new.len() > 0 {
        let d = new.drop_last();
        lemma_joined_same_len(a, d);
        if a.len() == 0 && d.len() == 0 {
            assert(joined(a, d) == a);
            assert(!holds_alike(a, new.last()));
        }
    }
}

/// Setting what already stands at a path changes nothing.
pub proof fn lemma_set_same(v: JsonView, path: Seq<Seq<char>>, x: JsonView)
    requires
        path.len() > 0,
        get_path(v, path) == Some(x),
    ensures
        set_path(v, path, x) == v,
    decreases path.len(),
{
    let rest = path.drop_first();
    match v {
        JsonView::Object(o) => {
            let i = key_at(o, path[0]) as int;
            crate::object::lemma_key_at(o, path[0]);
            assert(has_key(o, path[0]));
            let c = o[i].1;
            assert(get_path(c, rest) == Some(x));
            let y = if rest.len() == 0 {
                x
            } else {
                lemma_set_same(c, rest, x);
                set_path(child(o, path[0]), rest, x)
            };
            assert(y == c);
            assert(with_key(o, path[0], y) == o);
        },
        JsonView::Array(a) => match index_of(path[0]) {
            Some(n) => {
                let i = n as int;
                assert(get_path(a[i], rest) == Some(x));
                let y = if rest.len() == 0 {
                    x
                } else {
                    lemma_set_same(a[i], rest, x);
                    set_path(padded(a, n + 1)[i], rest, x)
                };
                assert(y == a[i]);
                assert(padded(a, n + 1).update(i, y) == a);
            },
            None => {},
        },
        _ => {},
    }
}

/// Whether an entry adds no value to a set that is not there yet.
pub open spec fn founds_empty_set(
    op: Seq<char>,
    doc: JsonView,
    k: Seq<char>,
    v: JsonView,
) -> bool {
    op == "$addToSet"@ && operands(v).len() == 0 && !(get_path(doc, pieces(k, '.')) matches Some(
        JsonView::Array(_),
    ))
}

/// An entry that changes nothing, by its own account, leaves the document as it
/// was; the one exception makes an empty set where none is.
pub proof fn lemma_entry_unmodified(op: Seq<char>, s: Edit, k: Seq<char>, v: JsonView)
    requires
        !entry_edit(op, s, k, v).modified,
        !founds_empty_set(op, s.doc, k, v),
    ensures
        entry_edit(op, s, k, v) == s,
{
    let path = pieces(k, '.');
    let now = get_path(s.doc, path);
    lemma_kept(items_of(now), v);
    lemma_joined_same_len(items_of(now), operands(v));
    crate::text::lemma_pieces_nonempty(k, '.');
    if op == "$addToSet"@ && !s.modified {
        let all = joined(items_of(now), operands(v));
        if let Some(JsonView::Array(a)) = now {
            if all.len() == a.len() {
                assert(all == a);
                lemma_set_same(s.doc, path, JsonView::Array(a));
            }
        }
    }
}

/// Whether no entry of `$addToSet` lists nothing to add.
pub open spec fn adds_something(update: JsonView) -> bool {
    update matches JsonView::Object(o) ==> forall|i: int, j: int|
        0 <= i < o.len() && (#[trigger] o[i]).0 == "$addToSet"@ && o[i].1 is Object && 0 <= j
            < o[i].1->Object_0.len() ==> operands((#[trigger] o[i].1->Object_0[j]).1).len() > 0
}

proof fn lemma_entries_unmodified(op: Seq<char>, s: Edit, o: Seq<(Seq<char>, JsonView)>)
    requires
        !entries_edit(op, s, o).modified,
        op == "$addToSet"@ ==> forall|j: int|
            0 <= j < o.len() ==> operands((#[trigger] o[j]).1).len() > 0,
    ensures
        entries_edit(op, s, o) == s,
    decreases o.len(),
{
    if o.len() > 0 {
        let d = o.drop_last();
        let t = entries_edit(op, s, d);
        assert(o[o.len() - 1] == o.last());
        lemma_entry_unmodified(op, t, o.last().0, o.last().1);
        assert forall|j: int| 0 <= j < d.len() && op == "$addToSet"@ implies operands(
            (#[trigger] d[j]).1,
        ).len() > 0 by {
            assert(d[j] == o[j]);
        }
        lemma_entries_unmodified(op, s, d);
    }
}

proof fn lemma_operators_unmodified(s: Edit, o: Seq<(Seq<char>, JsonView)>)
    requires
        !operators_edit(s, o).modified,
        adds_something(JsonView::Object(o)),
    ensures
        operators_edit(s, o) == s,
    decreases o.len(),
{
    if o.len() > 0 {
        let d = o.drop_last();
        let t = operators_edit(s, d);
        assert(o[o.len() - 1] == o.last());
        assert(adds_something(JsonView::Object(d))) by {
            assert forall|i: int, j: int|
                0 <= i < d.len() && (#[trigger] d[i]).0 == "$addToSet"@ && d[i].1 is Object && 0
                    <= j < d[i].1->Object_0.len() implies operands(
                (#[trigger] d[i].1->Object_0[j]).1,
            ).len() > 0 by {
                assert(d[i] == JsonView::Object(o)->Object_0[i]);
                assert(JsonView::Object(o)->Object_0[i].1->Object_0[j] == d[i].1->Object_0[j]);
            }
        }
        if let JsonView::Object(entries) = o.last().1 {
            let last = o.len() - 1;
            assert(JsonView::Object(o)->Object_0[last] == o.last());
            assert forall|j: int|
                0 <= j < entries.len() && o.last().0 == "$addToSet"@ implies operands(
                (#[trigger] entries[j]).1,
            ).len() > 0 by {
                assert(JsonView::Object(o)->Object_0[last].1->Object_0[j] == entries[j]);
            }
            lemma_entries_unmodified(o.last().0, t, entries);
        }
        lemma_operators_unmodified(s, d);
    }
}

/// An update that changes nothing, by its own account, leaves the document as
/// it was, where `$addToSet` is not asked to add nothing.
pub proof fn lemma_unmodified_unchanged(update: JsonView, doc: JsonView)
    requires
        adds_something(update),
        !edited(update, doc).modified,
    ensures
        edited(update, doc).doc == doc,
{
    if let JsonView::Object(o) = update {
        lemma_operators_unmodified(Edit { doc, modified: false }, o);
    }
}

proof fn lemma_entry_well_formed(op: Seq<char>, s: Edit, k: Seq<char>, v: JsonView)
    requires
        well_formed(s.doc),
        well_formed(v),
    ensures
        well_formed(entry_edit(op, s, k, v).doc),
{
    let path = pieces(k, '.');
    let now = get_path(s.doc, path);
    crate::path::lemma_get_well_formed(s.doc, path);
    let a = items_of(now);
    assert(forall|i: int| 0 <= i < a.len() ==> well_formed(#[trigger] a[i]));
    let new = operands(v);
    assert forall|i: int| 0 <= i < new.len() implies well_formed(#[trigger] new[i]) by {
        if let JsonView::Object(o) = v {
            crate::object::lemma_key_at(o, "$each"@);
            if has_key(o, "$each"@) {
                let x = v->Object_0[key_at(o, "$each"@) as int].1;
                assert(well_formed(x));
                if let JsonView::Array(list) = x {
                    assert(new == list);
                    assert(well_formed(x->Array_0[i]));
                }
            }
        }
    }
    lemma_kept(a, v);
    lemma_joined_members(a, new);
    let left = kept(a, v);
    assert forall|i: int| 0 <= i < left.len() implies well_formed(#[trigger] left[i]) by {
        assert(left.contains(left[i]));
        assert(a.contains(left[i]));
    }
    let all = a + new;
    assert forall|i: int| 0 <= i < all.len() implies well_formed(#[trigger] all[i]) by {
        if i < a.len() {
            assert(all[i] == a[i]);
        } else {
            assert(all[i] == new[i - a.len()]);
        }
    }
    let x = if op == "$set"@ {
        v
    } else if op == "$inc"@ {
        number_or_zero(float::sum(amount(now), amount(Some(v))))
    } else if op == "$mul"@ {
        number_or_zero(float::product(amount(now), amount(Some(v))))
    } else if op == "$push"@ {
        JsonView::Array(all)
    } else if op == "$pull"@ {
        JsonView::Array(left)
    } else if op == "$addToSet"@ {
        JsonView::Array(joined(a, new))
    } else {
        JsonView::Null
    };
    crate::path::lemma_set_well_formed(s.doc, path, x);
    crate::path::lemma_unset_well_formed(s.doc, path);
    if let Some(y) = now {
        let to = match str_of(v) {
            Some(t) => t,
            None => k,
        };
        crate::path::lemma_set_well_formed(s.doc, pieces(to, '.'), y);
        crate::path::lemma_unset_well_formed(set_path(s.doc, pieces(to, '.'), y), path);
    }
}

proof fn lemma_joined_members(a: Seq<JsonView>, new: Seq<JsonView>)
    requires
        forall|i: int| 0 <= i < a.len() ==> well_formed(#[trigger] a[i]),
        forall|i: int| 0 <= i < new.len() ==> well_formed(#[trigger] new[i]),
    ensures
        forall|i: int| 0 <= i < joined(a, new).len() ==> well_formed(#[trigger] joined(a, new)[i]),
    decreases new.len(),
{
    if new.len() > 0 {
        let d = new.drop_last();
        assert forall|i: int| 0 <= i < d.len() implies well_formed(#[trigger] d[i]) by {
            assert(d[i] == new[i]);
        }
        lemma_joined_members(a, d);
        assert(well_formed(new[new.len() - 1]));
        let b = joined(a, d);
        assert(joined(a, new) == if holds_alike(b, new.last()) {
            b
        } else {
            b.push(new.last())
        });
    }
}

proof fn lemma_entries_well_formed(op: Seq<char>, s: Edit, o: Seq<(Seq<char>, JsonView)>)
    requires
        well_formed(s.doc),
        forall|i: int| 0 <= i < o.len() ==> well_formed((#[trigger] o[i]).1),
    ensures
        well_formed(entries_edit(op, s, o).doc),
    decreases o.len(),
{
    if o.len() > 0 {
        lemma_entries_well_formed(op, s, o.drop_last());
        assert(well_formed(o[o.len() - 1].1));
        lemma_entry_well_formed(
            op,
            entries_edit(op, s, o.drop_last()),
            o.last().0,
            o.last().1,
        );
    }
}

proof fn lemma_operators_well_formed(s: Edit, o: Seq<(Seq<char>, JsonView)>)
    requires
        well_formed(s.doc),
        forall|i: int| 0 <= i < o.len() ==> well_formed((#[trigger] o[i]).1),
    ensures
        well_formed(operators_edit(s, o).doc),
    decreases o.len(),
{
    if o.len() > 0 {
        let t = operators_edit(s, o.drop_last());
        lemma_operators_well_formed(s, o.drop_last());
        assert(well_formed(o[o.len() - 1].1));
        if let JsonView::Object(entries) = o.last().1 {
            lemma_entries_well_formed(o.last().0, t, entries);
        }
    }
}

/// Updates keep documents well-formed.
pub proof fn lemma_edit_well_formed(update: JsonView, doc: JsonView)
    requires
        well_formed(update),
        well_formed(doc),
    ensures
        well_formed(edited(update, doc).doc),
{
    if let JsonView::Object(o) = update {
        lemma_operators_well_formed(Edit { doc, modified: false }, o);
    }
}

} // verus!
