//! What each update operator makes of a document, stated on its fields.

use crate::filter::selects;
use crate::float;
use crate::json::{JsonView, Numeral};
use crate::object::{
    field, float_of, lemma_key_at, lemma_key_at_is, lemma_lookup_with_key, lemma_lookup_without_key,
    well_formed, with_key, without_key,
};
use crate::path::{get_path, lemma_get_after_set, set_path, settable, unset_path};
use crate::querylaws::{
    integer, is_short, is_simple, lacks_field, lemma_missing_field, lemma_simple_equality,
};
use crate::text::{decimal_text, lemma_pieces_linked, pieces};
use crate::update::{
    amount, edited, entries_edit, entry_edit, items_of, joined, kept, lemma_single_update, number_or_zero,
    operands, operators_edit, pulled, single_update, Edit,
};
use vstd::arithmetic::power2::pow2;
use vstd::prelude::*;

verus! {

/// The document that an update with one operator and one entry makes.
pub open spec fn after_update(op: Seq<char>, k: Seq<char>, v: JsonView, doc: JsonView) -> JsonView {
    edited(single_update(op, k, v), doc).doc
}

/// What each operator does with one entry.
proof fn lemma_entry(s: Edit, k: Seq<char>, v: JsonView)
    ensures
        ({
            let path = pieces(k, '.');
            let now = get_path(s.doc, path);
            &&& entry_edit("$set"@, s, k, v) == (Edit {
                doc: set_path(s.doc, path, v),
                modified: true,
            })
            &&& entry_edit("$unset"@, s, k, v) == (Edit {
                doc: unset_path(s.doc, path),
                modified: true,
            })
            &&& entry_edit("$inc"@, s, k, v) == (Edit {
                doc: set_path(
                    s.doc,
                    path,
                    number_or_zero(float::sum(amount(now), amount(Some(v)))),
                ),
                modified: true,
            })
            &&& entry_edit("$mul"@, s, k, v) == (Edit {
                doc: set_path(
                    s.doc,
                    path,
                    number_or_zero(float::product(amount(now), amount(Some(v)))),
                ),
                modified: true,
            })
            &&& entry_edit("$push"@, s, k, v) == (Edit {
                doc: set_path(s.doc, path, JsonView::Array(items_of(now) + operands(v))),
                modified: true,
            })
            &&& entry_edit("$pull"@, s, k, v) == (if kept(items_of(now), v).len() != items_of(
                now,
            ).len() {
                Edit {
                    doc: set_path(s.doc, path, JsonView::Array(kept(items_of(now), v))),
                    modified: true,
                }
            } else {
                s
            })
            &&& entry_edit("$addToSet"@, s, k, v) == (Edit {
                doc: set_path(s.doc, path, JsonView::Array(joined(items_of(now), operands(v)))),
                modified: s.modified || joined(items_of(now), operands(v)).len() != items_of(now).len(),
            })
            &&& entry_edit("$rename"@, s, k, v) == match now {
                Some(x) => {
                    let to = match crate::object::str_of(v) {
                        Some(t) => t,
                        None => k,
                    };
                    Edit {
                        doc: unset_path(set_path(s.doc, pieces(to, '.'), x), path),
                        modified: true,
                    }
                },
                None => s,
            }
        }),
{
    reveal_strlit("$set");
    reveal_strlit("$unset");
    reveal_strlit("$inc");
    reveal_strlit("$mul");
    reveal_strlit("$push");
    reveal_strlit("$pull");
    reveal_strlit("$addToSet");
    reveal_strlit("$rename");
    assert("$set"@.len() == 4);
    assert("$unset"@.len() == 6);
    assert("$inc"@.len() == 4);
    assert("$mul"@.len() == 4);
    assert("$push"@.len() == 5);
    assert("$pull"@.len() == 5);
    assert("$addToSet"@.len() == 9);
    assert("$rename"@.len() == 7);
    assert("$inc"@[1] == 'i');
    assert("$mul"@[1] == 'm');
    assert("$pull"@[3] == 'l');
    assert("$push"@[3] == 's');
    assert("$set"@[1] == 's');
}

/// A field of an object can be set.
proof fn lemma_set_field(doc: JsonView, k: Seq<char>, x: JsonView, other: Seq<char>)
    requires
        doc is Object,
        !k.contains('.'),
    ensures
        set_path(doc, pieces(k, '.'), x) == JsonView::Object(with_key(doc->Object_0, k, x)),
        settable(doc, pieces(k, '.')),
        field(set_path(doc, pieces(k, '.'), x), other) == (if other == k {
            Some(x)
        } else {
            field(doc, other)
        }),
{
    crate::project::lemma_plain_path(k);
    assert(seq![k].drop_first().len() == 0);
    lemma_lookup_with_key(doc->Object_0, k, x, other);
}

proof fn lemma_unset_field(doc: JsonView, k: Seq<char>, other: Seq<char>)
    requires
        doc is Object,
        well_formed(doc),
        !k.contains('.'),
    ensures
        unset_path(doc, pieces(k, '.')) == JsonView::Object(without_key(doc->Object_0, k)),
        field(unset_path(doc, pieces(k, '.')), other) == (if other == k {
            None
        } else {
            field(doc, other)
        }),
{
    crate::project::lemma_plain_path(k);
    assert(seq![k].drop_first().len() == 0);
    lemma_lookup_without_key(doc->Object_0, k, other);
}

/// What stands at a field, for an operator.
proof fn lemma_now(doc: JsonView, k: Seq<char>)
    requires
        doc is Object,
        !k.contains('.'),
    ensures
        get_path(doc, pieces(k, '.')) == field(doc, k),
{
    crate::project::lemma_plain_path(k);
    lemma_key_at(doc->Object_0, k);
    let rest = seq![k].drop_first();
    assert(rest.len() == 0);
    if let Some(x) = field(doc, k) {
        assert(get_path(x, rest) == Some(x));
    }
}

/// `$set` gives a field the value, and leaves the others alone.
pub proof fn lemma_set_sets(doc: JsonView, k: Seq<char>, v: JsonView, other: Seq<char>)
    requires
        doc is Object,
        !k.contains('.'),
    ensures
        field(after_update("$set"@, k, v, doc), other) == (if other == k {
            Some(v)
        } else {
            field(doc, other)
        }),
        edited(single_update("$set"@, k, v), doc).modified,
{
    lemma_single_update("$set"@, k, v, doc);
    lemma_entry(Edit { doc, modified: false }, k, v);
    lemma_set_field(doc, k, v, other);
}

/// `$unset` takes a field away, and leaves the others alone.
pub proof fn lemma_unset_takes_away(doc: JsonView, k: Seq<char>, v: JsonView, other: Seq<char>)
    requires
        doc is Object,
        well_formed(doc),
        !k.contains('.'),
    ensures
        field(after_update("$unset"@, k, v, doc), other) == (if other == k {
            None
        } else {
            field(doc, other)
        }),
        edited(single_update("$unset"@, k, v), doc).modified,
{
    lemma_single_update("$unset"@, k, v, doc);
    lemma_entry(Edit { doc, modified: false }, k, v);
    lemma_unset_field(doc, k, other);
}

/// Whether a value is a number with the value of an integer.
pub open spec fn counts_as(v: Option<JsonView>, n: int) -> bool {
    v matches Some(JsonView::Number(Numeral::Float(b))) && float::is_finite(b) && float::exact(b) == n
        * pow2(1074)
}

proof fn lemma_zero()
    ensures
        float::is_finite(0),
        float::exact(0) == 0,
        float::of_int(0) == 0,
{
    float::lemma_zero_is_zero();
}

/// `$inc` adds to the integer in a field, and a field that is not there or holds
/// no number counts as zero; `$mul` multiplies it.  The others stay.
pub proof fn lemma_numbers_are_changed(
    doc: JsonView,
    k: Seq<char>,
    m: int,
    n: int,
    other: Seq<char>,
)
    requires
        doc is Object,
        !k.contains('.'),
        is_short(m),
        is_short(n),
        other != k,
        match field(doc, k) {
            Some(x) => x == integer(m) || (!(x is Number) && m == 0),
            None => m == 0,
        },
    ensures
        is_short(m + n) ==> counts_as(field(after_update("$inc"@, k, integer(n), doc), k), m + n),
        is_short(m * n) ==> counts_as(field(after_update("$mul"@, k, integer(n), doc), k), m * n),
        field(after_update("$inc"@, k, integer(n), doc), other) == field(doc, other),
        field(after_update("$mul"@, k, integer(n), doc), other) == field(doc, other),
        edited(single_update("$inc"@, k, integer(n)), doc).modified,
        edited(single_update("$mul"@, k, integer(n)), doc).modified,
{
    let v = integer(n);
    let s = Edit { doc, modified: false };
    lemma_single_update("$inc"@, k, v, doc);
    lemma_single_update("$mul"@, k, v, doc);
    lemma_entry(s, k, v);
    lemma_now(doc, k);
    lemma_zero();
    let now = field(doc, k);
    assert(amount(now) == float::of_int(m));
    assert(amount(Some(v)) == float::of_int(n));
    let a = number_or_zero(float::sum(amount(now), amount(Some(v))));
    let b = number_or_zero(float::product(amount(now), amount(Some(v))));
    lemma_set_field(doc, k, a, k);
    lemma_set_field(doc, k, b, k);
    lemma_set_field(doc, k, a, other);
    lemma_set_field(doc, k, b, other);
    float::lemma_integer_arithmetic(m, n);
}

/// At every path that can be set, `$inc` leaves the rounded sum and `$mul` the
/// rounded product of what stood there and the operand.
pub proof fn lemma_numbers_are_changed_at_paths(
    doc: JsonView,
    k: Seq<char>,
    x: JsonView,
    a: u64,
    v: JsonView,
    b: u64,
    c: u64,
)
    requires
        settable(doc, pieces(k, '.')),
        get_path(doc, pieces(k, '.')) == Some(x),
        float_of(x) == Some(a),
        float_of(v) == Some(b),
        float::is_finite(a),
        float::is_finite(b),
        float::is_finite(c),
    ensures
        float::exact(c) == float::exact(a) + float::exact(b) ==> (get_path(
            after_update("$inc"@, k, v, doc),
            pieces(k, '.'),
        ) matches Some(JsonView::Number(Numeral::Float(r))) && float::exact(r) == float::exact(c)),
        float::exact(c) * pow2(1074) == float::exact(a) * float::exact(b) ==> (get_path(
            after_update("$mul"@, k, v, doc),
            pieces(k, '.'),
        ) matches Some(JsonView::Number(Numeral::Float(r))) && float::exact(r) == float::exact(c)),
{
    let path = pieces(k, '.');
    let s = Edit { doc, modified: false };
    lemma_single_update("$inc"@, k, v, doc);
    lemma_single_update("$mul"@, k, v, doc);
    lemma_entry(s, k, v);
    lemma_get_after_set(doc, path, number_or_zero(float::sum(a, b)));
    lemma_get_after_set(doc, path, number_or_zero(float::product(a, b)));
    if float::exact(c) == float::exact(a) + float::exact(b) {
        float::lemma_sum_is_exact(a, b, c);
    }
    if float::exact(c) * pow2(1074) == float::exact(a) * float::exact(b) {
        float::lemma_product_is_exact(a, b, c);
    }
}

/// At every path that can be set, `$mul` leaves the product of the number that
/// stood there, or zero, and the operand, `$push` what stood there with the value
/// behind it, and `$unset` nothing where only objects stand on the way.
pub proof fn lemma_paths_are_changed(doc: JsonView, k: Seq<char>, v: JsonView)
    requires
        settable(doc, pieces(k, '.')),
    ensures
        get_path(after_update("$mul"@, k, v, doc), pieces(k, '.')) == Some(
            number_or_zero(
                float::product(amount(get_path(doc, pieces(k, '.'))), amount(Some(v))),
            ),
        ),
        !(v is Object) ==> get_path(after_update("$push"@, k, v, doc), pieces(k, '.')) == Some(
            match get_path(doc, pieces(k, '.')) {
                Some(JsonView::Array(a)) => JsonView::Array(a.push(v)),
                _ => JsonView::Array(seq![v]),
            },
        ),
        well_formed(doc) && crate::path::through_objects(doc, pieces(k, '.')) ==> get_path(
            after_update("$unset"@, k, v, doc),
            pieces(k, '.'),
        ) is None,
{
    let path = pieces(k, '.');
    let s = Edit { doc, modified: false };
    let now = get_path(doc, path);
    lemma_single_update("$mul"@, k, v, doc);
    lemma_single_update("$push"@, k, v, doc);
    lemma_single_update("$unset"@, k, v, doc);
    lemma_entry(s, k, v);
    lemma_get_after_set(doc, path, number_or_zero(float::product(amount(now), amount(Some(v)))));
    lemma_get_after_set(doc, path, JsonView::Array(items_of(now) + operands(v)));
    lemma_operands(v, Seq::empty());
    assert(items_of(now) + seq![v] == items_of(now).push(v));
    assert(Seq::<JsonView>::empty().push(v) == seq![v]);
    if well_formed(doc) && crate::path::through_objects(doc, path) {
        crate::path::lemma_get_after_unset(doc, path);
    }
}

/// What an array field holds, with a field that is not there taken for an empty
/// array.
pub open spec fn has_items(doc: JsonView, k: Seq<char>, items: Seq<JsonView>) -> bool {
    field(doc, k) == Some(JsonView::Array(items)) || (field(doc, k) is None && items.len() == 0)
}

/// The operand that lists several values.
pub open spec fn each_of(list: Seq<JsonView>) -> JsonView {
    JsonView::Object(seq![("$each"@, JsonView::Array(list))])
}

proof fn lemma_operands(v: JsonView, list: Seq<JsonView>)
    ensures
        !(v is Object) ==> operands(v) == seq![v],
        lacks_field(v, "$each"@) ==> operands(v) == seq![v],
        operands(each_of(list)) == list,
{
    let o = seq![("$each"@, JsonView::Array(list))];
    lemma_key_at_is(o, "$each"@, 0);
    if lacks_field(v, "$each"@) {
        lemma_missing_field(v, "$each"@);
    }
}

/// `$push` adds a value at the end of an array, or several under `$each` in
/// their order; where there is no array it makes one.
pub proof fn lemma_push_appends(
    doc: JsonView,
    k: Seq<char>,
    items: Seq<JsonView>,
    v: JsonView,
    list: Seq<JsonView>,
    other: Seq<char>,
)
    requires
        doc is Object,
        !k.contains('.'),
        has_items(doc, k, items),
        !(v is Object) || lacks_field(v, "$each"@),
        other != k,
    ensures
        field(after_update("$push"@, k, v, doc), k) == Some(JsonView::Array(items.push(v))),
        field(after_update("$push"@, k, each_of(list), doc), k) == Some(
            JsonView::Array(items + list),
        ),
        field(after_update("$push"@, k, v, doc), other) == field(doc, other),
        edited(single_update("$push"@, k, v), doc).modified,
{
    let s = Edit { doc, modified: false };
    lemma_operands(v, list);
    lemma_now(doc, k);
    assert(items_of(field(doc, k)) == items);
    lemma_single_update("$push"@, k, v, doc);
    lemma_entry(s, k, v);
    assert(items + seq![v] == items.push(v));
    lemma_set_field(doc, k, JsonView::Array(items.push(v)), k);
    lemma_set_field(doc, k, JsonView::Array(items.push(v)), other);
    lemma_single_update("$push"@, k, each_of(list), doc);
    lemma_entry(s, k, each_of(list));
    lemma_set_field(doc, k, JsonView::Array(items + list), k);
}

proof fn lemma_kept_filters(a: Seq<JsonView>, v: JsonView, keep: spec_fn(JsonView) -> bool)
    requires
        forall|i: int| 0 <= i < a.len() ==> keep(#[trigger] a[i]) == !pulled(v, a[i]),
    ensures
        kept(a, v) == a.filter(keep),
    decreases a.len(),
{
    reveal(Seq::filter);
    if a.len() > 0 {
        lemma_kept_filters(a.drop_last(), v, keep);
    }
}

proof fn lemma_filter_len(a: Seq<JsonView>, keep: spec_fn(JsonView) -> bool)
    ensures
        a.filter(keep).len() <= a.len(),
        a.filter(keep).len() == a.len() ==> a.filter(keep) == a,
    decreases a.len(),
{
    reveal(Seq::filter);
    if a.len() > 0 {
        lemma_filter_len(a.drop_last(), keep);
    }
}

/// `$pull` leaves the items of an array, in their order, without those that are
/// equal to a simple value or a text, or that a filter selects.
pub proof fn lemma_pull_removes(
    doc: JsonView,
    k: Seq<char>,
    items: Seq<JsonView>,
    v: JsonView,
    other: Seq<char>,
)
    requires
        doc is Object,
        !k.contains('.'),
        field(doc, k) == Some(JsonView::Array(items)),
        is_simple(v) || v is Object || v is String,
        other != k,
    ensures
        !(v is Object) ==> field(after_update("$pull"@, k, v, doc), k) == Some(
            JsonView::Array(items.filter(|x: JsonView| x != v)),
        ),
        v is Object ==> field(after_update("$pull"@, k, v, doc), k) == Some(
            JsonView::Array(items.filter(|x: JsonView| !selects(v, x))),
        ),
        field(after_update("$pull"@, k, v, doc), other) == field(doc, other),
        edited(single_update("$pull"@, k, v), doc).modified <==> (exists|i: int|
            0 <= i < items.len() && (if v is Object {
                selects(v, #[trigger] items[i])
            } else {
                items[i] == v
            })),
{
    let s = Edit { doc, modified: false };
    let keep = if v is Object {
        |x: JsonView| !selects(v, x)
    } else {
        |x: JsonView| x != v
    };
    lemma_single_update("$pull"@, k, v, doc);
    lemma_entry(s, k, v);
    lemma_now(doc, k);
    assert forall|i: int| 0 <= i < items.len() implies keep(#[trigger] items[i]) == !pulled(
        v,
        items[i],
    ) by {
        if is_simple(v) {
            lemma_simple_equality(v, items[i]);
        }
    }
    lemma_kept_filters(items, v, keep);
    lemma_filter_len(items, keep);
    let left = items.filter(keep);
    lemma_set_field(doc, k, JsonView::Array(left), k);
    lemma_set_field(doc, k, JsonView::Array(left), other);
    lemma_filter_all(items, keep);
}

proof fn lemma_filter_all(a: Seq<JsonView>, keep: spec_fn(JsonView) -> bool)
    ensures
        a.filter(keep).len() == a.len() <==> forall|i: int| 0 <= i < a.len() ==> keep(#[trigger] a[i]),
    decreases a.len(),
{
    reveal(Seq::filter);
    lemma_filter_len(a, keep);
    if a.len() > 0 {
        let b = a.drop_last();
        lemma_filter_all(b, keep);
        lemma_filter_len(b, keep);
        if forall|i: int| 0 <= i < a.len() ==> keep(#[trigger] a[i]) {
            assert forall|i: int| 0 <= i < b.len() implies keep(#[trigger] b[i]) by {
                assert(b[i] == a[i]);
            }
        } else if a.filter(keep).len() == a.len() {
            assert(keep(a.last()));
            assert forall|i: int| 0 <= i < a.len() implies keep(#[trigger] a[i]) by {
                if i < b.len() {
                    assert(keep(b[i]));
                }
            }
        }
    }
}

/// `$addToSet` adds a simple value at the end of an array that does not hold it,
/// and leaves one alone that does.
pub proof fn lemma_add_to_set_adds_once(
    doc: JsonView,
    k: Seq<char>,
    items: Seq<JsonView>,
    v: JsonView,
    other: Seq<char>,
)
    requires
        doc is Object,
        !k.contains('.'),
        has_items(doc, k, items),
        is_simple(v),
        other != k,
    ensures
        field(after_update("$addToSet"@, k, v, doc), k) == Some(
            JsonView::Array(
                if items.contains(v) {
                    items
                } else {
                    items.push(v)
                },
            ),
        ),
        field(after_update("$addToSet"@, k, v, doc), other) == field(doc, other),
        edited(single_update("$addToSet"@, k, v), doc).modified <==> !items.contains(v),
{
    let s = Edit { doc, modified: false };
    lemma_operands(v, Seq::empty());
    lemma_now(doc, k);
    assert(items_of(field(doc, k)) == items);
    lemma_single_update("$addToSet"@, k, v, doc);
    lemma_entry(s, k, v);
    assert(crate::filter::holds_alike(items, v) == items.contains(v)) by {
        assert forall|i: int| 0 <= i < items.len() implies (crate::value::equivalent(
            #[trigger] items[i],
            v,
        ) <==> items[i] == v) by {
            lemma_simple_equality(v, items[i]);
        }
        if items.contains(v) {
            let i = choose|i: int| 0 <= i < items.len() && items[i] == v;
            assert(crate::value::equivalent(items[i], v));
        }
    }
    let new = seq![v];
    assert(new.drop_last() == Seq::<JsonView>::empty());
    assert(joined(items, new.drop_last()) == items);
    let all = joined(items, new);
    assert(all == (if items.contains(v) {
        items
    } else {
        items.push(v)
    }));
    lemma_set_field(doc, k, JsonView::Array(all), k);
    lemma_set_field(doc, k, JsonView::Array(all), other);
}

/// `$rename` moves the value of a field to another name; where there is none
/// nothing changes.
pub proof fn lemma_rename_moves(
    doc: JsonView,
    k: Seq<char>,
    to: Seq<char>,
    other: Seq<char>,
)
    requires
        doc is Object,
        well_formed(doc),
        !k.contains('.'),
        !to.contains('.'),
        k != to,
    ensures
        field(doc, k) is Some ==> field(
            after_update("$rename"@, k, JsonView::String(to), doc),
            other,
        ) == (if other == to {
            field(doc, k)
        } else if other == k {
            None
        } else {
            field(doc, other)
        }),
        field(doc, k) is None ==> after_update("$rename"@, k, JsonView::String(to), doc) == doc,
        edited(single_update("$rename"@, k, JsonView::String(to)), doc).modified <==> field(
            doc,
            k,
        ) is Some,
{
    let s = Edit { doc, modified: false };
    let v = JsonView::String(to);
    lemma_single_update("$rename"@, k, v, doc);
    lemma_entry(s, k, v);
    lemma_now(doc, k);
    if let Some(x) = field(doc, k) {
        lemma_key_at(doc->Object_0, k);
        lemma_set_field(doc, to, x, other);
        lemma_set_field(doc, to, x, k);
        crate::path::lemma_with_key_well_formed(doc->Object_0, to, x);
        lemma_unset_field(set_path(doc, pieces(to, '.'), x), k, other);
    }
}

/// An operator that is not known changes nothing, and neither does one without
/// entries.
pub proof fn lemma_unknown_update_changes_nothing(op: Seq<char>, v: JsonView, doc: JsonView)
    requires
        !seq![
            "$set"@,
            "$unset"@,
            "$inc"@,
            "$mul"@,
            "$push"@,
            "$pull"@,
            "$addToSet"@,
            "$rename"@,
        ].contains(op) || !(v is Object),
    ensures
        edited(JsonView::Object(seq![(op, v)]), doc).doc == doc,
        !edited(JsonView::Object(seq![(op, v)]), doc).modified,
{
    let known = seq![
        "$set"@,
        "$unset"@,
        "$inc"@,
        "$mul"@,
        "$push"@,
        "$pull"@,
        "$addToSet"@,
        "$rename"@,
    ];
    assert(known[0] == "$set"@ && known[1] == "$unset"@ && known[2] == "$inc"@ && known[3] == "$mul"@);
    assert(known[4] == "$push"@ && known[5] == "$pull"@ && known[6] == "$addToSet"@);
    assert(known[7] == "$rename"@);
    let s = Edit { doc, modified: false };
    let o = seq![(op, v)];
    assert(o.drop_last() == Seq::<(Seq<char>, JsonView)>::empty());
    assert(operators_edit(s, o.drop_last()) == s);
    if let JsonView::Object(entries) = v {
        lemma_unknown_entries(op, s, entries);
    }
}

proof fn lemma_unknown_entries(op: Seq<char>, s: Edit, o: Seq<(Seq<char>, JsonView)>)
    requires
        op != "$set"@,
        op != "$unset"@,
        op != "$inc"@,
        op != "$mul"@,
        op != "$push"@,
        op != "$pull"@,
        op != "$addToSet"@,
        op != "$rename"@,
    ensures
        entries_edit(op, s, o) == s,
    decreases o.len(),
{
    if o.len() > 0 {
        lemma_unknown_entries(op, s, o.drop_last());
    }
}

proof fn lemma_entry_flag(op: Seq<char>, doc: JsonView, m: bool, k: Seq<char>, v: JsonView)
    ensures
        entry_edit(op, Edit { doc, modified: m }, k, v).doc == entry_edit(
            op,
            Edit { doc, modified: false },
            k,
            v,
        ).doc,
        entry_edit(op, Edit { doc, modified: m }, k, v).modified == (m || entry_edit(
            op,
            Edit { doc, modified: false },
            k,
            v,
        ).modified),
{
}

proof fn lemma_entries_flag(op: Seq<char>, doc: JsonView, m: bool, o: Seq<(Seq<char>, JsonView)>)
    ensures
        entries_edit(op, Edit { doc, modified: m }, o).doc == entries_edit(
            op,
            Edit { doc, modified: false },
            o,
        ).doc,
        entries_edit(op, Edit { doc, modified: m }, o).modified == (m || entries_edit(
            op,
            Edit { doc, modified: false },
            o,
        ).modified),
    decreases o.len(),
{
    if o.len() > 0 {
        lemma_entries_flag(op, doc, m, o.drop_last());
        let a = entries_edit(op, Edit { doc, modified: m }, o.drop_last());
        let b = entries_edit(op, Edit { doc, modified: false }, o.drop_last());
        lemma_entry_flag(op, a.doc, a.modified, o.last().0, o.last().1);
        lemma_entry_flag(op, b.doc, b.modified, o.last().0, o.last().1);
    }
}

proof fn lemma_operators_flag(doc: JsonView, m: bool, o: Seq<(Seq<char>, JsonView)>)
    ensures
        operators_edit(Edit { doc, modified: m }, o).doc == operators_edit(
            Edit { doc, modified: false },
            o,
        ).doc,
        operators_edit(Edit { doc, modified: m }, o).modified == (m || operators_edit(
            Edit { doc, modified: false },
            o,
        ).modified),
    decreases o.len(),
{
    if o.len() > 0 {
        lemma_operators_flag(doc, m, o.drop_last());
        let a = operators_edit(Edit { doc, modified: m }, o.drop_last());
        let b = operators_edit(Edit { doc, modified: false }, o.drop_last());
        if let JsonView::Object(entries) = o.last().1 {
            lemma_entries_flag(o.last().0, a.doc, a.modified, entries);
            lemma_entries_flag(o.last().0, b.doc, b.modified, entries);
        }
    }
}

proof fn lemma_operators_follow(
    s: Edit,
    a: Seq<(Seq<char>, JsonView)>,
    b: Seq<(Seq<char>, JsonView)>,
)
    ensures
        operators_edit(s, a + b) == operators_edit(operators_edit(s, a), b),
    decreases b.len(),
{
    if b.len() == 0 {
        assert(a + b == a);
    } else {
        lemma_operators_follow(s, a, b.drop_last());
        assert((a + b).drop_last() == a + b.drop_last());
        assert((a + b).last() == b.last());
    }
}

proof fn lemma_entries_follow(
    op: Seq<char>,
    s: Edit,
    a: Seq<(Seq<char>, JsonView)>,
    b: Seq<(Seq<char>, JsonView)>,
)
    ensures
        entries_edit(op, s, a + b) == entries_edit(op, entries_edit(op, s, a), b),
    decreases b.len(),
{
    if b.len() == 0 {
        assert(a + b == a);
    } else {
        lemma_entries_follow(op, s, a, b.drop_last());
        assert((a + b).drop_last() == a + b.drop_last());
        assert((a + b).last() == b.last());
    }
}

/// The operators of an update, and the entries of an operator, do their work one
/// after the other: what the first ones make is what the others start from, and
/// something is changed where one of them changes something.
pub proof fn lemma_updates_follow(
    doc: JsonView,
    a: Seq<(Seq<char>, JsonView)>,
    b: Seq<(Seq<char>, JsonView)>,
    op: Seq<char>,
)
    ensures
        ({
            let first = edited(JsonView::Object(a), doc);
            let second = edited(JsonView::Object(b), first.doc);
            edited(JsonView::Object(a + b), doc) == (Edit {
                doc: second.doc,
                modified: first.modified || second.modified,
            })
        }),
        ({
            let first = edited(JsonView::Object(seq![(op, JsonView::Object(a))]), doc);
            let second = edited(JsonView::Object(seq![(op, JsonView::Object(b))]), first.doc);
            edited(JsonView::Object(seq![(op, JsonView::Object(a + b))]), doc) == (Edit {
                doc: second.doc,
                modified: first.modified || second.modified,
            })
        }),
        edited(JsonView::Object(Seq::empty()), doc) == (Edit { doc, modified: false }),
{
    let s = Edit { doc, modified: false };
    lemma_operators_follow(s, a, b);
    let t = operators_edit(s, a);
    lemma_operators_flag(t.doc, t.modified, b);
    lemma_one_operator(op, s, a);
    lemma_one_operator(op, s, a + b);
    lemma_entries_follow(op, s, a, b);
    let u = entries_edit(op, s, a);
    lemma_one_operator(op, Edit { doc: u.doc, modified: false }, b);
    lemma_entries_flag(op, u.doc, u.modified, b);
}

proof fn lemma_one_operator(op: Seq<char>, s: Edit, entries: Seq<(Seq<char>, JsonView)>)
    ensures
        operators_edit(s, seq![(op, JsonView::Object(entries))]) == entries_edit(op, s, entries),
{
    let o = seq![(op, JsonView::Object(entries))];
    assert(o.drop_last() == Seq::<(Seq<char>, JsonView)>::empty());
    assert(operators_edit(s, o.drop_last()) == s);
}

/// Setting at a path with a dot sets inside the value that is there, or in a new
/// object where none is; setting an item sets it in the array, which is filled
/// up with nulls; unsetting one takes it out.
pub proof fn lemma_inner_values_are_set(
    doc: JsonView,
    a: Seq<char>,
    b: Seq<char>,
    v: JsonView,
    i: nat,
    items: Seq<JsonView>,
)
    requires
        doc is Object,
        !a.contains('.'),
        !b.contains('.'),
        i < usize::MAX,
    ensures
        field(doc, a) is None ==> field(after_update("$set"@, a + seq!['.'] + b, v, doc), a) == Some(
            JsonView::Object(seq![(b, v)]),
        ),
        field(doc, a) matches Some(JsonView::Object(o)) ==> field(
            after_update("$set"@, a + seq!['.'] + b, v, doc),
            a,
        ) == Some(after_update("$set"@, b, v, JsonView::Object(o))),
        field(doc, a) == Some(JsonView::Array(items)) ==> (field(
            after_update("$set"@, a + seq!['.'] + decimal_text(i), v, doc),
            a,
        ) matches Some(JsonView::Array(t)) && t.len() == (if i < items.len() {
            items.len()
        } else {
            i + 1
        }) && t[i as int] == v && (forall|j: int|
            0 <= j < t.len() && j != i ==> #[trigger] t[j] == (if j < items.len() {
                items[j]
            } else {
                JsonView::Null
            }))),
        field(doc, a) == Some(JsonView::Array(items)) && i < items.len() ==> field(
            after_update("$unset"@, a + seq!['.'] + decimal_text(i), v, doc),
            a,
        ) == Some(JsonView::Array(items.remove(i as int))),
{
    let c = decimal_text(i);
    crate::text::lemma_decimal_digits(i);
    crate::text::lemma_decimal_round_trip(i, usize::MAX as nat);
    assert(!c.contains('.'));
    crate::project::lemma_plain_path(a);
    crate::project::lemma_plain_path(b);
    crate::project::lemma_plain_path(c);
    lemma_pieces_linked(a, b, '.');
    lemma_pieces_linked(a, c, '.');
    let p = seq![a] + seq![b];
    let q = seq![a] + seq![c];
    assert(p.drop_first() == seq![b]);
    assert(q.drop_first() == seq![c]);
    assert(seq![b].drop_first().len() == 0);
    assert(seq![c].drop_first().len() == 0);
    let s = Edit { doc, modified: false };
    let k = a + seq!['.'] + b;
    let l = a + seq!['.'] + c;
    lemma_single_update("$set"@, k, v, doc);
    lemma_single_update("$set"@, l, v, doc);
    lemma_single_update("$unset"@, l, v, doc);
    lemma_entry(s, k, v);
    lemma_entry(s, l, v);
    let o = doc->Object_0;
    let child = crate::path::child(o, a);
    lemma_lookup_with_key(o, a, set_path(child, seq![b], v), a);
    lemma_lookup_with_key(o, a, set_path(child, seq![c], v), a);
    lemma_lookup_with_key(o, a, unset_path(child, seq![c]), a);
    if field(doc, a) is None {
        let e = Seq::<(Seq<char>, JsonView)>::empty();
        lemma_key_at(e, b);
        assert(with_key(e, b, v) == seq![(b, v)]);
    }
    if let Some(JsonView::Object(inner)) = field(doc, a) {
        lemma_single_update("$set"@, b, v, JsonView::Object(inner));
        lemma_entry(Edit { doc: JsonView::Object(inner), modified: false }, b, v);
    }
    assert(crate::path::index_of(c) == Some(i));
}

/// `$each` counts only where it lists values: without a list the operand itself
/// is added.
pub proof fn lemma_each_needs_a_list(
    doc: JsonView,
    k: Seq<char>,
    items: Seq<JsonView>,
    v: JsonView,
    x: JsonView,
)
    requires
        doc is Object,
        !k.contains('.'),
        has_items(doc, k, items),
        field(v, "$each"@) == Some(x),
        !(x is Array),
    ensures
        field(after_update("$push"@, k, v, doc), k) == Some(JsonView::Array(items.push(v))),
{
    let s = Edit { doc, modified: false };
    lemma_now(doc, k);
    assert(items_of(field(doc, k)) == items);
    lemma_single_update("$push"@, k, v, doc);
    lemma_entry(s, k, v);
    assert(items + seq![v] == items.push(v));
    lemma_set_field(doc, k, JsonView::Array(items.push(v)), k);
}

/// `$rename` to what is no name takes the field away.
pub proof fn lemma_rename_to_no_name(doc: JsonView, k: Seq<char>, v: JsonView, other: Seq<char>)
    requires
        doc is Object,
        well_formed(doc),
        !k.contains('.'),
        !(v is String),
    ensures
        field(after_update("$rename"@, k, v, doc), other) == (if other == k {
            None
        } else {
            field(doc, other)
        }),
{
    let s = Edit { doc, modified: false };
    lemma_single_update("$rename"@, k, v, doc);
    lemma_entry(s, k, v);
    lemma_now(doc, k);
    if let Some(x) = field(doc, k) {
        lemma_key_at(doc->Object_0, k);
        lemma_set_field(doc, k, x, other);
        crate::path::lemma_with_key_well_formed(doc->Object_0, k, x);
        lemma_unset_field(set_path(doc, pieces(k, '.'), x), k, other);
    }
}

/// A sum or a product that is too large to be a number leaves zero.
pub proof fn lemma_too_large_is_zero(doc: JsonView, k: Seq<char>, x: JsonView, v: JsonView, a: u64, b: u64)
    requires
        settable(doc, pieces(k, '.')),
        get_path(doc, pieces(k, '.')) == Some(x),
        float_of(x) == Some(a),
        float_of(v) == Some(b),
    ensures
        !float::is_finite(float::sum(a, b)) ==> get_path(
            after_update("$inc"@, k, v, doc),
            pieces(k, '.'),
        ) == Some(integer(0)),
        !float::is_finite(float::product(a, b)) ==> get_path(
            after_update("$mul"@, k, v, doc),
            pieces(k, '.'),
        ) == Some(integer(0)),
{
    let path = pieces(k, '.');
    let s = Edit { doc, modified: false };
    lemma_single_update("$inc"@, k, v, doc);
    lemma_single_update("$mul"@, k, v, doc);
    lemma_entry(s, k, v);
    lemma_get_after_set(doc, path, number_or_zero(float::sum(a, b)));
    lemma_get_after_set(doc, path, number_or_zero(float::product(a, b)));
}

} // verus!
