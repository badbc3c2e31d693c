//! What filters, pages, orders and projections give, stated on the documents
//! themselves.

use crate::filter::{meets, regex_search, selects, value_matches};
use crate::float;
use crate::json::{JsonView, Numeral};
use crate::object::{field, float_of, json_eq, lemma_key_at, lemma_key_at_is};
use crate::path::{get_path, index_of};
use crate::text::{
    decimal_text, lemma_decimal_round_trip, lemma_pieces_linked, pieces, text_less, text_order, trimmed,
};
use crate::value::{alike, equivalent, object_id_of, order_of, text_id};
use crate::wire::bare_text_of;
use vstd::prelude::*;

verus! {

/// Whether a document has a field with a value: it is an object that holds no
/// key twice, and the field is one of its entries.
pub open spec fn has_field(doc: JsonView, k: Seq<char>, x: JsonView) -> bool {
    doc matches JsonView::Object(o) && o.contains((k, x)) && forall|i: int, j: int|
        0 <= i < j < o.len() ==> (#[trigger] o[i]).0 != (#[trigger] o[j]).0
}

/// Whether a document is an object without a field.
pub open spec fn lacks_field(doc: JsonView, k: Seq<char>) -> bool {
    doc matches JsonView::Object(o) && forall|i: int| 0 <= i < o.len() ==> (#[trigger] o[i]).0 != k
}

/// A key that is one step of a path, and no operator.
pub open spec fn is_name(k: Seq<char>) -> bool {
    !k.contains('.') && (k.len() > 0 ==> k[0] != '$')
}

/// The filter that asks for a field by one operator.
pub open spec fn where_field(k: Seq<char>, op: Seq<char>, arg: JsonView) -> JsonView {
    JsonView::Object(seq![(k, JsonView::Object(seq![(op, arg)]))])
}

/// The filter that asks for a field by its value.
pub open spec fn where_equal(k: Seq<char>, v: JsonView) -> JsonView {
    JsonView::Object(seq![(k, v)])
}

/// An integer as a JSON number.
pub open spec fn integer(n: int) -> JsonView {
    if n >= 0 {
        JsonView::Number(Numeral::PosInt(n as u64))
    } else {
        JsonView::Number(Numeral::NegInt(n as i64))
    }
}

/// Whether an integer has at most 53 binary digits.
pub open spec fn is_short(n: int) -> bool {
    -0x20_0000_0000_0000 <= n <= 0x20_0000_0000_0000
}

/// A value that counts as equal to itself alone: null, a truth value, an
/// integer, or a text that is too short for an id.
pub open spec fn is_simple(x: JsonView) -> bool {
    match x {
        JsonView::Null => true,
        JsonView::Bool(_) => true,
        JsonView::Number(n) => !(n is Float),
        JsonView::String(s) => s.len() < 24,
        _ => false,
    }
}

/// Whether a text comes before another: they agree up to a place where the one
/// ends or has the smaller character.
pub open spec fn precedes(s: Seq<char>, t: Seq<char>) -> bool {
    exists|i: int|
        0 <= i <= s.len() && i < t.len() && #[trigger] s.take(i) == t.take(i) && (i == s.len() || s[i]
            < t[i])
}

/// A field is read under its name.
pub proof fn lemma_field_is_read(doc: JsonView, k: Seq<char>, x: JsonView)
    requires
        has_field(doc, k, x),
    ensures
        field(doc, k) == Some(x),
        !k.contains('.') ==> get_path(doc, pieces(k, '.')) == Some(x),
{
    let o = doc->Object_0;
    let i = choose|i: int| 0 <= i < o.len() && o[i] == (k, x);
    assert forall|j: int| 0 <= j < i implies (#[trigger] o[j]).0 != k by {
        assert(o[j].0 != o[i].0);
    }
    lemma_key_at_is(o, k, i);
    if !k.contains('.') {
        crate::project::lemma_plain_path(k);
        let path = seq![k];
        assert(path.drop_first() == Seq::<Seq<char>>::empty());
        assert(get_path(x, path.drop_first()) == Some(x));
    }
}

/// A field that is not there is not read.
pub proof fn lemma_missing_field(doc: JsonView, k: Seq<char>)
    requires
        lacks_field(doc, k),
    ensures
        field(doc, k) is None,
        !k.contains('.') ==> get_path(doc, pieces(k, '.')) is None,
{
    let o = doc->Object_0;
    lemma_key_at(o, k);
    if !k.contains('.') {
        crate::project::lemma_plain_path(k);
    }
}

/// A path with a dot is read step by step, and an index picks an item of an
/// array.
pub proof fn lemma_path_is_read(doc: JsonView, a: Seq<char>, x: JsonView, b: Seq<char>, y: JsonView)
    requires
        has_field(doc, a, x),
        !a.contains('.'),
        !b.contains('.'),
    ensures
        has_field(x, b, y) ==> get_path(doc, pieces(a + seq!['.'] + b, '.')) == Some(y),
        lacks_field(x, b) ==> get_path(doc, pieces(a + seq!['.'] + b, '.')) is None,
{
    lemma_pieces_linked(a, b, '.');
    crate::project::lemma_plain_path(a);
    crate::project::lemma_plain_path(b);
    let path = seq![a] + seq![b];
    assert(path.drop_first() == seq![b]);
    lemma_field_is_read(doc, a, x);
    lemma_key_at(doc->Object_0, a);
    if has_field(x, b, y) {
        lemma_field_is_read(x, b, y);
    }
    if lacks_field(x, b) {
        lemma_missing_field(x, b);
    }
}

/// An index picks the item of an array that stands there.
pub proof fn lemma_item_is_read(doc: JsonView, a: Seq<char>, items: Seq<JsonView>, i: nat)
    requires
        has_field(doc, a, JsonView::Array(items)),
        !a.contains('.'),
        i <= usize::MAX,
    ensures
        get_path(doc, pieces(a + seq!['.'] + decimal_text(i), '.')) == (if i < items.len() {
            Some(items[i as int])
        } else {
            None
        }),
{
    let b = decimal_text(i);
    lemma_decimal_round_trip(i, usize::MAX as nat);
    crate::text::lemma_decimal_digits(i);
    assert(!b.contains('.'));
    lemma_pieces_linked(a, b, '.');
    crate::project::lemma_plain_path(a);
    crate::project::lemma_plain_path(b);
    let path = seq![a] + seq![b];
    assert(path.drop_first() == seq![b]);
    assert(seq![b].drop_first() == Seq::<Seq<char>>::empty());
    lemma_field_is_read(doc, a, JsonView::Array(items));
    lemma_key_at(doc->Object_0, a);
    assert(index_of(b) == Some(i));
    let x = JsonView::Array(items);
    assert(get_path(x, seq![b]) == (if i < items.len() {
        get_path(items[i as int], seq![b].drop_first())
    } else {
        None
    }));
    assert(get_path(doc, path) == get_path(x, path.drop_first()));
}

proof fn lemma_strip(s: Seq<char>, p: spec_fn(char) -> bool)
    ensures
        crate::text::strip_front(s, p).len() <= s.len(),
        crate::text::strip_back(s, p).len() <= s.len(),
    decreases s.len(),
{
    if s.len() > 0 {
        lemma_strip(s.drop_first(), p);
        lemma_strip(s.drop_last(), p);
    }
}

proof fn lemma_trimmed_is_shorter(s: Seq<char>)
    ensures
        trimmed(s).len() <= s.len(),
{
    let p = |c: char| crate::text::is_white(c);
    lemma_strip(s, p);
    lemma_strip(crate::text::strip_front(s, p), p);
}

/// A text shorter than an id is none.
proof fn lemma_short_is_no_id(s: Seq<char>)
    requires
        s.len() < 24,
    ensures
        text_id(s) is None,
{
    let t = trimmed(s);
    lemma_trimmed_is_shorter(s);
    if crate::value::is_long_id(t) && t.len() >= 12 {
        lemma_trimmed_is_shorter(t.subrange(10, t.len() - 2));
    }
    lemma_trimmed_is_shorter(t);
}

/// A simple value counts as equal to itself and to nothing else.
pub proof fn lemma_simple_equality(x: JsonView, y: JsonView)
    requires
        is_simple(x),
    ensures
        equivalent(x, y) <==> x == y,
        equivalent(y, x) <==> x == y,
        json_eq(x, y) <==> x == y,
        json_eq(y, x) <==> x == y,
{
    if let JsonView::String(s) = x {
        lemma_short_is_no_id(s);
    }
}

/// The text order is that of the first difference.
pub proof fn lemma_text_order(s: Seq<char>, t: Seq<char>)
    ensures
        text_order(s, t) < 0 <==> precedes(s, t),
        text_order(s, t) > 0 <==> precedes(t, s),
        text_order(s, t) == 0 <==> s == t,
{
    lemma_text_less(s, t);
    lemma_text_less(t, s);
    crate::text::lemma_text_order_antisymmetric(s, t);
}

proof fn lemma_text_less(s: Seq<char>, t: Seq<char>)
    ensures
        text_less(s, t) <==> precedes(s, t),
    decreases s.len(),
{
    if t.len() > 0 && s.len() == 0 {
        assert(s.take(0) == t.take(0));
    } else if t.len() > 0 && s[0] != t[0] {
        assert(s.take(0) == t.take(0));
        if precedes(s, t) {
            let i = choose|i: int|
                0 <= i <= s.len() && i < t.len() && #[trigger] s.take(i) == t.take(i) && (i
                    == s.len() || s[i] < t[i]);
            if i > 0 {
                assert(s.take(i)[0] == t.take(i)[0]);
            }
        }
    } else if t.len() > 0 {
        let a = s.drop_first();
        let b = t.drop_first();
        lemma_text_less(a, b);
        if precedes(a, b) {
            let i = choose|i: int|
                0 <= i <= a.len() && i < b.len() && #[trigger] a.take(i) == b.take(i) && (i
                    == a.len() || a[i] < b[i]);
            assert(s.take(i + 1) == seq![s[0]] + a.take(i));
            assert(t.take(i + 1) == seq![t[0]] + b.take(i));
            assert(s.take(i + 1) == t.take(i + 1));
        }
        if precedes(s, t) {
            let i = choose|i: int|
                0 <= i <= s.len() && i < t.len() && #[trigger] s.take(i) == t.take(i) && (i
                    == s.len() || s[i] < t[i]);
            assert(i > 0);
            assert(a.take(i - 1) == s.take(i).drop_first());
            assert(b.take(i - 1) == t.take(i).drop_first());
            assert(a.take(i - 1) == b.take(i - 1));
        }
    }
}

/// What each operator asks of a value.
proof fn lemma_meets(d: Option<JsonView>, arg: JsonView)
    ensures
        meets(d, "$eq"@, arg) == alike(d, Some(arg)),
        meets(d, "$ne"@, arg) == !alike(d, Some(arg)),
        meets(d, "$gt"@, arg) == (order_of(d, Some(arg)) > 0),
        meets(d, "$gte"@, arg) == (order_of(d, Some(arg)) >= 0),
        meets(d, "$lt"@, arg) == (order_of(d, Some(arg)) < 0),
        meets(d, "$lte"@, arg) == (order_of(d, Some(arg)) <= 0),
{
    reveal_strlit("$eq");
    reveal_strlit("$ne");
    reveal_strlit("$gt");
    reveal_strlit("$gte");
    reveal_strlit("$lt");
    reveal_strlit("$lte");
    assert("$eq"@.len() == 3);
    assert("$ne"@.len() == 3);
    assert("$gt"@.len() == 3);
    assert("$gte"@.len() == 4);
    assert("$lt"@.len() == 3);
    assert("$lte"@.len() == 4);
    assert("$eq"@[1] == 'e');
    assert("$gt"@[1] == 'g');
    assert("$gte"@[1] == 'g');
    assert("$lt"@[1] == 'l');
    assert("$lte"@[1] == 'l');
    assert("$ne"@[1] == 'n');
}

proof fn lemma_meets_more(d: Option<JsonView>, arg: JsonView)
    ensures
        meets(d, "$in"@, arg) == (d is Some && arg is Array && crate::filter::among(
            d->Some_0,
            arg->Array_0,
        )),
        meets(d, "$nin"@, arg) == (d is Some && arg is Array && !crate::filter::among(
            d->Some_0,
            arg->Array_0,
        )),
        meets(d, "$exists"@, arg) == ((crate::object::bool_of(arg) != Some(false)) == (d is Some && d
            != Some(JsonView::Null))),
        meets(d, "$regex"@, arg) == (d is Some && regex_search(
            bare_text_of(arg),
            bare_text_of(d->Some_0),
        ) == Some(true)),
        meets(d, "$size"@, arg) == (d matches Some(JsonView::Array(a)) && a.len()
            == match crate::object::nat_of(arg) {
            Some(n) => n as nat,
            None => 0,
        }),
        meets(d, "$all"@, arg) == (d matches Some(JsonView::Array(a)) && arg matches JsonView::Array(
            wanted,
        ) && forall|j: int|
            0 <= j < wanted.len() ==> crate::filter::holds_alike(a, #[trigger] wanted[j])),
{
    reveal_strlit("$eq");
    reveal_strlit("$ne");
    reveal_strlit("$gt");
    reveal_strlit("$gte");
    reveal_strlit("$lt");
    reveal_strlit("$lte");
    reveal_strlit("$in");
    reveal_strlit("$nin");
    reveal_strlit("$exists");
    reveal_strlit("$regex");
    reveal_strlit("$size");
    reveal_strlit("$all");
    assert("$eq"@.len() == 3);
    assert("$ne"@.len() == 3);
    assert("$gt"@.len() == 3);
    assert("$gte"@.len() == 4);
    assert("$lt"@.len() == 3);
    assert("$lte"@.len() == 4);
    assert("$in"@.len() == 3);
    assert("$nin"@.len() == 4);
    assert("$exists"@.len() == 7);
    assert("$regex"@.len() == 6);
    assert("$size"@.len() == 5);
    assert("$all"@.len() == 4);
    assert("$all"@[1] == 'a');
    assert("$eq"@[1] == 'e');
    assert("$gt"@[1] == 'g');
    assert("$gte"@[1] == 'g');
    assert("$in"@[1] == 'i');
    assert("$lt"@[1] == 'l');
    assert("$lte"@[1] == 'l');
    assert("$ne"@[1] == 'n');
    assert("$nin"@[1] == 'n');
}

/// A filter on a field asks what the field meets; what is no object is not
/// taken for an operator.
proof fn lemma_where(doc: JsonView, d: Option<JsonView>, k: Seq<char>, op: Seq<char>, arg: JsonView)
    requires
        is_name(k),
        get_path(doc, pieces(k, '.')) == d,
        d matches Some(x) ==> !(x is Object),
        op.len() > 0,
        op[0] == '$',
        op != "$oid"@,
    ensures
        selects(where_field(k, op, arg), doc) == meets(d, op, arg),
{
    let q = JsonView::Object(seq![(op, arg)]);
    crate::filter::lemma_single(k, q, doc);
    assert(where_field(k, op, arg) == crate::filter::single(k, q));
    lemma_not_a_word(k);
    reveal_strlit("$");
    assert("$"@ == seq!['$']);
    assert(op.subrange(0, 1) == seq!['$']);
    let e = q->Object_0;
    assert(e[0] == (op, arg));
    assert(crate::filter::is_operators(q));
    lemma_key_at(e, "$oid"@);
    assert(field(q, "$oid"@) is None);
    assert(object_id_of(q) is None);
    assert(!alike(d, Some(q)));
    assert(value_matches(d, q) == meets(d, op, arg)) by {
        if value_matches(d, q) {
            assert(meets(d, q->Object_0[0].0, q->Object_0[0].1));
        }
    }
}

proof fn lemma_not_a_word(k: Seq<char>)
    requires
        is_name(k),
    ensures
        k != "$and"@,
        k != "$or"@,
        k != "$nor"@,
        k != "$not"@,
{
    reveal_strlit("$and");
    reveal_strlit("$or");
    reveal_strlit("$nor");
    reveal_strlit("$not");
    assert("$and"@[0] == '$' && "$or"@[0] == '$' && "$nor"@[0] == '$' && "$not"@[0] == '$');
}

proof fn lemma_operator_shapes()
    ensures
        "$eq"@[0] == '$' && "$eq"@.len() == 3 && "$ne"@[0] == '$' && "$ne"@.len() == 3,
        "$gt"@[0] == '$' && "$gt"@.len() == 3 && "$gte"@[0] == '$' && "$gte"@.len() == 4,
        "$lt"@[0] == '$' && "$lt"@.len() == 3 && "$lte"@[0] == '$' && "$lte"@.len() == 4,
        "$in"@[0] == '$' && "$in"@.len() == 3 && "$nin"@[0] == '$' && "$nin"@.len() == 4,
        "$all"@[0] == '$' && "$all"@.len() == 4 && "$size"@[0] == '$' && "$size"@.len() == 5,
        "$regex"@[0] == '$' && "$regex"@.len() == 6 && "$exists"@[0] == '$' && "$exists"@.len() == 7,
        "$gte"@ != "$oid"@ && "$lte"@ != "$oid"@ && "$nin"@ != "$oid"@ && "$all"@ != "$oid"@,
        "$oid"@.len() == 4,
{
    reveal_strlit("$eq");
    reveal_strlit("$ne");
    reveal_strlit("$gt");
    reveal_strlit("$gte");
    reveal_strlit("$lt");
    reveal_strlit("$lte");
    reveal_strlit("$in");
    reveal_strlit("$nin");
    reveal_strlit("$exists");
    reveal_strlit("$regex");
    reveal_strlit("$size");
    reveal_strlit("$all");
    reveal_strlit("$oid");
    assert("$gte"@[1] == 'g' && "$lte"@[1] == 'l' && "$nin"@[1] == 'n' && "$all"@[1] == 'a');
    assert("$oid"@[1] == 'o');
}

/// The comparisons of a field with numbers are those of their values.
pub proof fn lemma_numbers_are_compared(
    doc: JsonView,
    k: Seq<char>,
    x: JsonView,
    y: JsonView,
    a: u64,
    b: u64,
)
    requires
        is_name(k),
        has_field(doc, k, x),
        float_of(x) == Some(a),
        float_of(y) == Some(b),
    ensures
        selects(where_field(k, "$gt"@, y), doc) <==> float::exact(a) > float::exact(b),
        selects(where_field(k, "$gte"@, y), doc) <==> float::exact(a) >= float::exact(b),
        selects(where_field(k, "$lt"@, y), doc) <==> float::exact(a) < float::exact(b),
        selects(where_field(k, "$lte"@, y), doc) <==> float::exact(a) <= float::exact(b),
{
    lemma_field_is_read(doc, k, x);
    lemma_operator_shapes();
    lemma_meets(Some(x), y);
    lemma_where(doc, Some(x), k, "$gt"@, y);
    lemma_where(doc, Some(x), k, "$gte"@, y);
    lemma_where(doc, Some(x), k, "$lt"@, y);
    lemma_where(doc, Some(x), k, "$lte"@, y);
}

/// The comparisons of a field with integers are those of the integers.
pub proof fn lemma_integers_are_compared(doc: JsonView, k: Seq<char>, m: int, n: int)
    requires
        is_name(k),
        is_short(m),
        is_short(n),
        has_field(doc, k, integer(m)),
    ensures
        selects(where_field(k, "$gt"@, integer(n)), doc) <==> m > n,
        selects(where_field(k, "$gte"@, integer(n)), doc) <==> m >= n,
        selects(where_field(k, "$lt"@, integer(n)), doc) <==> m < n,
        selects(where_field(k, "$lte"@, integer(n)), doc) <==> m <= n,
        selects(where_field(k, "$eq"@, integer(n)), doc) <==> m == n,
        selects(where_field(k, "$ne"@, integer(n)), doc) <==> m != n,
        selects(where_equal(k, integer(n)), doc) <==> m == n,
{
    lemma_numbers_are_compared(
        doc,
        k,
        integer(m),
        integer(n),
        float::of_int(m),
        float::of_int(n),
    );
    float::lemma_integer_arithmetic(m, n);
    lemma_equality_is_asked(doc, k, integer(m), integer(n));
}

/// The comparisons of a field with texts are those of the texts.
pub proof fn lemma_texts_are_compared(doc: JsonView, k: Seq<char>, s: Seq<char>, t: Seq<char>)
    requires
        is_name(k),
        has_field(doc, k, JsonView::String(s)),
    ensures
        selects(where_field(k, "$gt"@, JsonView::String(t)), doc) <==> precedes(t, s),
        selects(where_field(k, "$gte"@, JsonView::String(t)), doc) <==> precedes(t, s) || s == t,
        selects(where_field(k, "$lt"@, JsonView::String(t)), doc) <==> precedes(s, t),
        selects(where_field(k, "$lte"@, JsonView::String(t)), doc) <==> precedes(s, t) || s == t,
{
    let x = JsonView::String(s);
    let y = JsonView::String(t);
    lemma_field_is_read(doc, k, x);
    lemma_operator_shapes();
    lemma_meets(Some(x), y);
    lemma_where(doc, Some(x), k, "$gt"@, y);
    lemma_where(doc, Some(x), k, "$gte"@, y);
    lemma_where(doc, Some(x), k, "$lt"@, y);
    lemma_where(doc, Some(x), k, "$lte"@, y);
    lemma_text_order(s, t);
}

/// Whatever a field is compared with: `$gt` selects what `$lte` does not, `$gte`
/// what `$lt` does not, and what is smaller or greater is also not equal.
pub proof fn lemma_comparisons_are_opposite(
    doc: JsonView,
    k: Seq<char>,
    x: JsonView,
    y: JsonView,
)
    requires
        is_name(k),
        has_field(doc, k, x),
        !(x is Object),
    ensures
        selects(where_field(k, "$gt"@, y), doc) == !selects(where_field(k, "$lte"@, y), doc),
        selects(where_field(k, "$gte"@, y), doc) == !selects(where_field(k, "$lt"@, y), doc),
        selects(where_field(k, "$lt"@, y), doc) ==> selects(where_field(k, "$lte"@, y), doc),
        selects(where_field(k, "$gt"@, y), doc) ==> selects(where_field(k, "$gte"@, y), doc),
        selects(where_field(k, "$ne"@, y), doc) == !selects(where_field(k, "$eq"@, y), doc),
        selects(where_field(k, "$eq"@, y), doc) == selects(where_equal(k, y), doc) || y is Object,
{
    lemma_field_is_read(doc, k, x);
    lemma_operator_shapes();
    lemma_meets(Some(x), y);
    lemma_where(doc, Some(x), k, "$gt"@, y);
    lemma_where(doc, Some(x), k, "$gte"@, y);
    lemma_where(doc, Some(x), k, "$lt"@, y);
    lemma_where(doc, Some(x), k, "$lte"@, y);
    lemma_where(doc, Some(x), k, "$eq"@, y);
    lemma_where(doc, Some(x), k, "$ne"@, y);
    crate::filter::lemma_single(k, y, doc);
    assert(where_equal(k, y) == crate::filter::single(k, y));
    lemma_not_a_word(k);
}

/// A field that is not there is smaller than everything, equal to nothing, and
/// in no list.
pub proof fn lemma_missing_is_compared(doc: JsonView, k: Seq<char>, y: JsonView)
    requires
        is_name(k),
        lacks_field(doc, k),
    ensures
        !selects(where_field(k, "$gt"@, y), doc),
        !selects(where_field(k, "$gte"@, y), doc),
        selects(where_field(k, "$lt"@, y), doc),
        selects(where_field(k, "$lte"@, y), doc),
        !selects(where_field(k, "$eq"@, y), doc),
        selects(where_field(k, "$ne"@, y), doc),
        !selects(where_field(k, "$in"@, y), doc),
        !selects(where_field(k, "$nin"@, y), doc),
        !selects(where_field(k, "$regex"@, y), doc),
        !selects(where_field(k, "$size"@, y), doc),
        !selects(where_field(k, "$all"@, y), doc),
{
    lemma_missing_field(doc, k);
    lemma_operator_shapes();
    lemma_meets(None, y);
    lemma_meets_more(None, y);
    lemma_where(doc, None, k, "$gt"@, y);
    lemma_where(doc, None, k, "$gte"@, y);
    lemma_where(doc, None, k, "$lt"@, y);
    lemma_where(doc, None, k, "$lte"@, y);
    lemma_where(doc, None, k, "$eq"@, y);
    lemma_where(doc, None, k, "$ne"@, y);
    lemma_where(doc, None, k, "$in"@, y);
    lemma_where(doc, None, k, "$nin"@, y);
    lemma_where(doc, None, k, "$regex"@, y);
    lemma_where(doc, None, k, "$size"@, y);
    lemma_where(doc, None, k, "$all"@, y);
}

/// A field with a simple value is found by that value and by no other, whether
/// it is asked for by `$eq` or by the value itself.
pub proof fn lemma_equality_is_asked(doc: JsonView, k: Seq<char>, x: JsonView, y: JsonView)
    requires
        is_name(k),
        has_field(doc, k, x),
        is_simple(x),
    ensures
        selects(where_field(k, "$eq"@, y), doc) <==> x == y,
        selects(where_field(k, "$ne"@, y), doc) <==> x != y,
        !(y is Object) ==> (selects(where_equal(k, y), doc) <==> x == y),
{
    lemma_field_is_read(doc, k, x);
    lemma_operator_shapes();
    lemma_meets(Some(x), y);
    lemma_where(doc, Some(x), k, "$eq"@, y);
    lemma_where(doc, Some(x), k, "$ne"@, y);
    lemma_simple_equality(x, y);
    crate::filter::lemma_single(k, y, doc);
    assert(where_equal(k, y) == crate::filter::single(k, y));
    lemma_not_a_word(k);
}

/// `$in` selects a field whose simple value is one of the listed ones, `$nin`
/// one whose value is none of them.
pub proof fn lemma_lists_are_asked(
    doc: JsonView,
    k: Seq<char>,
    x: JsonView,
    list: Seq<JsonView>,
)
    requires
        is_name(k),
        has_field(doc, k, x),
        is_simple(x),
    ensures
        selects(where_field(k, "$in"@, JsonView::Array(list)), doc) <==> list.contains(x),
        selects(where_field(k, "$nin"@, JsonView::Array(list)), doc) <==> !list.contains(x),
{
    let arg = JsonView::Array(list);
    lemma_field_is_read(doc, k, x);
    lemma_operator_shapes();
    lemma_meets_more(Some(x), arg);
    lemma_where(doc, Some(x), k, "$in"@, arg);
    lemma_where(doc, Some(x), k, "$nin"@, arg);
    assert forall|j: int| 0 <= j < list.len() implies (equivalent(x, #[trigger] list[j]) <==> x
        == list[j]) by {
        lemma_simple_equality(x, list[j]);
    }
    if list.contains(x) {
        let j = choose|j: int| 0 <= j < list.len() && list[j] == x;
        assert(equivalent(x, list[j]));
    }
}

/// `$in` selects an array that has one of the listed simple values among its
/// items, `$nin` one that has none of them, `$all` one that has all of them, and
/// `$size` one of that length.
pub proof fn lemma_arrays_are_asked(
    doc: JsonView,
    k: Seq<char>,
    items: Seq<JsonView>,
    list: Seq<JsonView>,
    n: nat,
)
    requires
        is_name(k),
        has_field(doc, k, JsonView::Array(items)),
        forall|j: int| 0 <= j < list.len() ==> is_simple(#[trigger] list[j]),
        n <= u64::MAX,
    ensures
        selects(where_field(k, "$in"@, JsonView::Array(list)), doc) <==> exists|j: int|
            0 <= j < list.len() && items.contains(#[trigger] list[j]),
        selects(where_field(k, "$nin"@, JsonView::Array(list)), doc) <==> forall|j: int|
            0 <= j < list.len() ==> !items.contains(#[trigger] list[j]),
        selects(where_field(k, "$all"@, JsonView::Array(list)), doc) <==> forall|j: int|
            0 <= j < list.len() ==> items.contains(#[trigger] list[j]),
        selects(where_field(k, "$size"@, integer(n as int)), doc) <==> items.len() == n,
{
    let x = JsonView::Array(items);
    let arg = JsonView::Array(list);
    lemma_field_is_read(doc, k, x);
    lemma_operator_shapes();
    lemma_meets_more(Some(x), arg);
    lemma_meets_more(Some(x), integer(n as int));
    lemma_where(doc, Some(x), k, "$in"@, arg);
    lemma_where(doc, Some(x), k, "$nin"@, arg);
    lemma_where(doc, Some(x), k, "$all"@, arg);
    lemma_where(doc, Some(x), k, "$size"@, integer(n as int));
    assert forall|j: int| 0 <= j < list.len() implies (crate::filter::holds_alike(
        items,
        #[trigger] list[j],
    ) <==> items.contains(list[j])) by {
        assert forall|i: int| 0 <= i < items.len() implies (equivalent(
            #[trigger] items[i],
            list[j],
        ) <==> items[i] == list[j]) by {
            lemma_simple_equality(list[j], items[i]);
        }
    }
}

/// `$exists` selects a field by whether it is there with a value other than
/// null.
pub proof fn lemma_presence_is_asked(doc: JsonView, k: Seq<char>, x: JsonView)
    requires
        is_name(k),
        has_field(doc, k, x) || lacks_field(doc, k),
        !(x is Object),
    ensures
        selects(where_field(k, "$exists"@, JsonView::Bool(true)), doc) <==> has_field(doc, k, x) && !(
        x is Null),
        selects(where_field(k, "$exists"@, JsonView::Bool(false)), doc) <==> lacks_field(doc, k)
            || x is Null,
{
    lemma_operator_shapes();
    let d = if has_field(doc, k, x) {
        let o = doc->Object_0;
        let i = choose|i: int| 0 <= i < o.len() && o[i] == (k, x);
        assert(o[i].0 == k);
        lemma_field_is_read(doc, k, x);
        Some(x)
    } else {
        lemma_missing_field(doc, k);
        None
    };
    lemma_meets_more(d, JsonView::Bool(true));
    lemma_meets_more(d, JsonView::Bool(false));
    lemma_where(doc, d, k, "$exists"@, JsonView::Bool(true));
    lemma_where(doc, d, k, "$exists"@, JsonView::Bool(false));
}

/// `$regex` selects a text in which the pattern is found.
pub proof fn lemma_pattern_is_asked(
    doc: JsonView,
    k: Seq<char>,
    s: Seq<char>,
    pattern: Seq<char>,
)
    requires
        is_name(k),
        has_field(doc, k, JsonView::String(s)),
    ensures
        selects(where_field(k, "$regex"@, JsonView::String(pattern)), doc) <==> regex_search(
            pattern,
            s,
        ) == Some(true),
{
    let x = JsonView::String(s);
    lemma_field_is_read(doc, k, x);
    lemma_operator_shapes();
    lemma_meets_more(Some(x), JsonView::String(pattern));
    lemma_where(doc, Some(x), k, "$regex"@, JsonView::String(pattern));
}

/// An operator that is not known selects nothing.
pub proof fn lemma_unknown_operator_selects_nothing(
    doc: JsonView,
    k: Seq<char>,
    x: JsonView,
    op: Seq<char>,
    arg: JsonView,
)
    requires
        is_name(k),
        has_field(doc, k, x),
        !(x is Object),
        op.len() > 0,
        op[0] == '$',
        op != "$oid"@,
        !seq![
            "$eq"@,
            "$ne"@,
            "$gt"@,
            "$gte"@,
            "$lt"@,
            "$lte"@,
            "$in"@,
            "$nin"@,
            "$exists"@,
            "$regex"@,
            "$size"@,
            "$all"@,
        ].contains(op),
    ensures
        !selects(where_field(k, op, arg), doc),
{
    let known = seq![
        "$eq"@,
        "$ne"@,
        "$gt"@,
        "$gte"@,
        "$lt"@,
        "$lte"@,
        "$in"@,
        "$nin"@,
        "$exists"@,
        "$regex"@,
        "$size"@,
        "$all"@,
    ];
    assert(known[0] == "$eq"@ && known[1] == "$ne"@ && known[2] == "$gt"@ && known[3] == "$gte"@);
    assert(known[4] == "$lt"@ && known[5] == "$lte"@ && known[6] == "$in"@ && known[7] == "$nin"@);
    assert(known[8] == "$exists"@ && known[9] == "$regex"@ && known[10] == "$size"@);
    assert(known[11] == "$all"@);
    lemma_field_is_read(doc, k, x);
    lemma_where(doc, Some(x), k, op, arg);
}

/// Several operators on one field select what each of them selects.
pub proof fn lemma_operators_conjoin(
    doc: JsonView,
    k: Seq<char>,
    x: JsonView,
    o: Seq<(Seq<char>, JsonView)>,
)
    requires
        is_name(k),
        has_field(doc, k, x),
        !(x is Object),
        o.len() > 0,
        forall|i: int|
            0 <= i < o.len() ==> (#[trigger] o[i]).0.len() > 0 && o[i].0[0] == '$' && o[i].0 != "$oid"@,
    ensures
        selects(where_equal(k, JsonView::Object(o)), doc) <==> forall|i: int|
            0 <= i < o.len() ==> selects(where_field(k, (#[trigger] o[i]).0, o[i].1), doc),
{
    let q = JsonView::Object(o);
    lemma_field_is_read(doc, k, x);
    crate::filter::lemma_single(k, q, doc);
    assert(where_equal(k, q) == crate::filter::single(k, q));
    lemma_not_a_word(k);
    reveal_strlit("$");
    assert("$"@ == seq!['$']);
    assert forall|i: int| 0 <= i < o.len() implies selects(
        where_field(k, (#[trigger] o[i]).0, o[i].1),
        doc,
    ) == meets(Some(x), o[i].0, o[i].1) && crate::text::begins_with(o[i].0, "$"@) by {
        lemma_where(doc, Some(x), k, o[i].0, o[i].1);
        assert(o[i].0.subrange(0, 1) == seq!['$']);
    }
    assert(crate::filter::is_operators(q));
    lemma_key_at(o, "$oid"@);
    assert(field(q, "$oid"@) is None);
    assert(!alike(Some(x), Some(q)));
    if value_matches(Some(x), q) {
        assert forall|i: int| 0 <= i < o.len() implies selects(
            where_field(k, (#[trigger] o[i]).0, o[i].1),
            doc,
        ) by {
            assert(meets(Some(x), q->Object_0[i].0, q->Object_0[i].1));
        }
    }
}

/// A filter that is no object selects everything; `$and` selects what all its
/// filters select, `$or` what one of them selects, `$nor` what none does, and
/// none of these selects anything without a list.
pub proof fn lemma_filters_are_combined(doc: JsonView, filters: Seq<JsonView>, v: JsonView)
    ensures
        !(v is Object) ==> selects(v, doc),
        selects(where_equal("$and"@, JsonView::Array(filters)), doc) <==> forall|i: int|
            0 <= i < filters.len() ==> selects(#[trigger] filters[i], doc),
        selects(where_equal("$or"@, JsonView::Array(filters)), doc) <==> exists|i: int|
            0 <= i < filters.len() && selects(#[trigger] filters[i], doc),
        selects(where_equal("$nor"@, JsonView::Array(filters)), doc) <==> forall|i: int|
            0 <= i < filters.len() ==> !selects(#[trigger] filters[i], doc),
        !(v is Array) ==> !selects(where_equal("$and"@, v), doc) && !selects(
            where_equal("$or"@, v),
            doc,
        ) && !selects(where_equal("$nor"@, v), doc),
{
    let a = JsonView::Array(filters);
    assert(where_equal("$and"@, a) == crate::filter::single("$and"@, a));
    assert(where_equal("$or"@, a) == crate::filter::single("$or"@, a));
    assert(where_equal("$nor"@, a) == crate::filter::single("$nor"@, a));
    crate::filter::lemma_single("$and"@, a, doc);
    crate::filter::lemma_single("$or"@, a, doc);
    crate::filter::lemma_single("$nor"@, a, doc);
    assert(where_equal("$and"@, v) == crate::filter::single("$and"@, v));
    assert(where_equal("$or"@, v) == crate::filter::single("$or"@, v));
    assert(where_equal("$nor"@, v) == crate::filter::single("$nor"@, v));
    crate::filter::lemma_single("$and"@, v, doc);
    crate::filter::lemma_single("$or"@, v, doc);
    crate::filter::lemma_single("$nor"@, v, doc);
    reveal_strlit("$and");
    reveal_strlit("$or");
    reveal_strlit("$nor");
    reveal_strlit("$not");
    assert("$and"@.len() == 4);
    assert("$or"@.len() == 3);
    assert("$nor"@.len() == 4);
    assert("$not"@.len() == 4);
    assert("$and"@[1] == 'a');
    assert("$nor"@[1] == 'n');
    assert("$nor"@[3] == 'r');
    assert("$not"@[1] == 'n');
    assert("$not"@[3] == 't');
}

/// Whether a text is 24 hexadecimal digits.
pub open spec fn is_bare_id(s: Seq<char>) -> bool {
    s.len() == 24 && forall|i: int|
        0 <= i < s.len() ==> ('0' <= (#[trigger] s[i]) <= '9' || 'a' <= s[i] <= 'f' || 'A' <= s[i]
            <= 'F')
}

/// Whether two characters are the same but for their case.
pub open spec fn same_but_case(a: char, b: char) -> bool {
    ||| a == b
    ||| 'A' <= a <= 'Z' && b as int == a as int + 32
    ||| 'A' <= b <= 'Z' && a as int == b as int + 32
}

proof fn lemma_bare_id(s: Seq<char>)
    requires
        is_bare_id(s),
    ensures
        text_id(s) == Some(crate::text::ascii_lowered(s)),
{
    let p = |c: char| crate::text::is_white(c);
    assert(!p(s[0]) && !p(s.last()));
    assert(trimmed(s) == s);
    reveal_strlit("ObjectId(\"");
    reveal_strlit("\")");
    reveal_strlit("ObjectId('");
    reveal_strlit("')");
    assert(!crate::value::is_long_id(s)) by {
        if crate::value::is_long_id(s) {
            assert(s.subrange(0, 10)[0] == 'O');
            assert(s[0] == 'O');
        }
    }
    assert forall|i: int| 0 <= i < s.len() implies crate::value::is_hex_digit(#[trigger] s[i]) by {
    }
}

/// Ids are equal whatever the case of their digits, and an id in an object under
/// `$oid` is equal to the same id as a text; other digits make another id.
pub proof fn lemma_ids_are_compared(s: Seq<char>, t: Seq<char>)
    requires
        is_bare_id(s),
        is_bare_id(t),
    ensures
        equivalent(JsonView::String(s), JsonView::String(t)) <==> forall|i: int|
            0 <= i < 24 ==> same_but_case(#[trigger] s[i], t[i]),
        equivalent(
            JsonView::String(s),
            JsonView::Object(seq![("$oid"@, JsonView::String(t))]),
        ) <==> forall|i: int| 0 <= i < 24 ==> same_but_case(#[trigger] s[i], t[i]),
{
    lemma_bare_id(s);
    lemma_bare_id(t);
    let a = crate::text::ascii_lowered(s);
    let b = crate::text::ascii_lowered(t);
    let o = seq![("$oid"@, JsonView::String(t))];
    lemma_key_at_is(o, "$oid"@, 0);
    assert forall|i: int| 0 <= i < 24 implies (a[i] == b[i] <==> same_but_case(
        #[trigger] s[i],
        t[i],
    )) by {
        let c = crate::text::ascii_lower(s[i]);
        let d = crate::text::ascii_lower(t[i]);
        assert(a[i] == c && b[i] == d);
        assert('0' <= t[i] <= '9' || 'a' <= t[i] <= 'f' || 'A' <= t[i] <= 'F');
        lemma_lowered(s[i]);
        lemma_lowered(t[i]);
    }
    if a == b {
        assert forall|i: int| 0 <= i < 24 implies same_but_case(#[trigger] s[i], t[i]) by {
            assert(a[i] == b[i]);
        }
    }
    if forall|i: int| 0 <= i < 24 ==> same_but_case(#[trigger] s[i], t[i]) {
        assert forall|i: int| 0 <= i < 24 implies a[i] == b[i] by {
            assert(same_but_case(s[i], t[i]));
        }
        assert(a == b);
    }
    if s == t {
        assert(a == b);
    }
}

proof fn lemma_lowered(c: char)
    requires
        '0' <= c <= '9' || 'a' <= c <= 'f' || 'A' <= c <= 'F',
    ensures
        crate::text::ascii_lower(c) as int == (if 'A' <= c <= 'F' {
            c as int + 32
        } else {
            c as int
        }),
{
}

/// An object in which not every key is an operator is a value: it selects no
/// field with a simple value, whatever operators it holds.
pub proof fn lemma_mixed_objects_are_values(
    doc: JsonView,
    k: Seq<char>,
    x: JsonView,
    o: Seq<(Seq<char>, JsonView)>,
    i: int,
)
    requires
        is_name(k),
        has_field(doc, k, x),
        is_simple(x),
        0 <= i < o.len(),
        o[i].0.len() > 0 ==> o[i].0[0] != '$',
    ensures
        !selects(where_equal(k, JsonView::Object(o)), doc),
{
    let q = JsonView::Object(o);
    lemma_field_is_read(doc, k, x);
    lemma_simple_equality(x, q);
    crate::filter::lemma_single(k, q, doc);
    assert(where_equal(k, q) == crate::filter::single(k, q));
    lemma_not_a_word(k);
    reveal_strlit("$");
    if crate::text::begins_with(o[i].0, "$"@) {
        assert(o[i].0.subrange(0, 1)[0] == '$');
    }
    assert(!crate::filter::is_operators(q));
}

/// A field is compared with what is not a number, or one that is not a number
/// with anything, by their texts.
pub proof fn lemma_others_are_compared_by_text(doc: JsonView, k: Seq<char>, x: JsonView, y: JsonView)
    requires
        is_name(k),
        has_field(doc, k, x),
        !(x is Object),
        float_of(x) is None || float_of(y) is None,
    ensures
        selects(where_field(k, "$gt"@, y), doc) <==> precedes(bare_text_of(y), bare_text_of(x)),
        selects(where_field(k, "$lt"@, y), doc) <==> precedes(bare_text_of(x), bare_text_of(y)),
        selects(where_field(k, "$gte"@, y), doc) <==> precedes(bare_text_of(y), bare_text_of(x))
            || bare_text_of(x) == bare_text_of(y),
        selects(where_field(k, "$lte"@, y), doc) <==> precedes(bare_text_of(x), bare_text_of(y))
            || bare_text_of(x) == bare_text_of(y),
{
    lemma_field_is_read(doc, k, x);
    lemma_operator_shapes();
    lemma_meets(Some(x), y);
    lemma_where(doc, Some(x), k, "$gt"@, y);
    lemma_where(doc, Some(x), k, "$gte"@, y);
    lemma_where(doc, Some(x), k, "$lt"@, y);
    lemma_where(doc, Some(x), k, "$lte"@, y);
    lemma_text_order(bare_text_of(x), bare_text_of(y));
}

/// Objects are equal whatever the order of their entries.
pub proof fn lemma_entries_have_no_order(
    doc: JsonView,
    k: Seq<char>,
    o: Seq<(Seq<char>, JsonView)>,
    p: Seq<(Seq<char>, JsonView)>,
)
    requires
        is_name(k),
        has_field(doc, k, JsonView::Object(o)),
        crate::object::well_formed(JsonView::Object(o)),
        crate::object::well_formed(JsonView::Object(p)),
        o.to_multiset() == p.to_multiset(),
    ensures
        selects(where_equal(k, JsonView::Object(p)), doc),
{
    broadcast use vstd::seq_lib::group_to_multiset_ensures;

    let x = JsonView::Object(o);
    let y = JsonView::Object(p);
    lemma_field_is_read(doc, k, x);
    crate::filter::lemma_single(k, y, doc);
    assert(where_equal(k, y) == crate::filter::single(k, y));
    lemma_not_a_word(k);
    vstd::seq_lib::to_multiset_len(o);
    vstd::seq_lib::to_multiset_len(p);
    assert forall|i: int| 0 <= i < o.len() implies crate::object::has_key(p, (#[trigger] o[i]).0) && json_eq(
        o[i].1,
        crate::object::lookup(p, o[i].0)->Some_0,
    ) by {
        assert(o.to_multiset().count(o[i]) > 0);
        assert(p.to_multiset().count(o[i]) > 0);
        assert(p.contains(o[i]));
        let j = choose|j: int| 0 <= j < p.len() && p[j] == o[i];
        crate::value::lemma_found(p, j);
        crate::value::lemma_json_eq_reflexive(o[i].1);
    }
    assert(json_eq(x, y));
}

/// An id in its long form, in either quotation marks and with white space around
/// it, is equal to the id.
pub proof fn lemma_long_ids_are_read(id: Seq<char>, before: Seq<char>, after: Seq<char>)
    requires
        is_bare_id(id),
        forall|i: int| 0 <= i < before.len() ==> crate::text::is_white(#[trigger] before[i]),
        forall|i: int| 0 <= i < after.len() ==> crate::text::is_white(#[trigger] after[i]),
    ensures
        equivalent(
            JsonView::String(before + ("ObjectId(\""@ + id + "\")"@) + after),
            JsonView::String(id),
        ),
        equivalent(
            JsonView::String(before + ("ObjectId('"@ + id + "')"@) + after),
            JsonView::String(id),
        ),
        equivalent(JsonView::String(before + id + after), JsonView::String(id)),
{
    reveal_strlit("ObjectId(\"");
    reveal_strlit("\")");
    reveal_strlit("ObjectId('");
    reveal_strlit("')");
    lemma_bare_id(id);
    let a = "ObjectId(\""@ + id + "\")"@;
    let b = "ObjectId('"@ + id + "')"@;
    let none = Seq::<char>::empty();
    assert(a.len() == 36 && a[0] == 'O' && a.last() == ')');
    assert(b.len() == 36 && b[0] == 'O' && b.last() == ')');
    crate::text::lemma_trimming_is_exact(before, a, after);
    crate::text::lemma_trimming_is_exact(before, b, after);
    crate::text::lemma_trimming_is_exact(before, id, after);
    crate::text::lemma_trimming_is_exact(none, id, none);
    assert(none + id + none == id);
    assert(a.subrange(0, 10) == "ObjectId(\""@ && a.subrange(34, 36) == "\")"@);
    assert(b.subrange(0, 10) == "ObjectId('"@ && b.subrange(34, 36) == "')"@);
    assert(a.subrange(10, 34) == id && b.subrange(10, 34) == id);
    assert(!crate::value::is_long_id(id)) by {
        if crate::value::is_long_id(id) {
            assert(id.subrange(0, 10)[0] == 'O');
            assert(id[0] == 'O');
        }
    }
}

/// A name behind an array is read in those of its items that have it, in their
/// order.
pub proof fn lemma_items_are_collected(
    doc: JsonView,
    a: Seq<char>,
    items: Seq<JsonView>,
    b: Seq<char>,
    found: Seq<JsonView>,
)
    requires
        has_field(doc, a, JsonView::Array(items)),
        !a.contains('.'),
        !b.contains('.'),
        index_of(b) is None,
        found.len() == items.len(),
        forall|i: int| 0 <= i < items.len() ==> #[trigger] has_field(items[i], b, found[i]),
        items.len() > 0,
    ensures
        get_path(doc, pieces(a + seq!['.'] + b, '.')) == Some(JsonView::Array(found)),
{
    lemma_pieces_linked(a, b, '.');
    crate::project::lemma_plain_path(a);
    crate::project::lemma_plain_path(b);
    let path = seq![a] + seq![b];
    assert(path.drop_first() == seq![b]);
    lemma_field_is_read(doc, a, JsonView::Array(items));
    lemma_key_at(doc->Object_0, a);
    lemma_collected(items, b, found);
    let x = JsonView::Array(items);
    assert(get_path(x, seq![b]) == Some(JsonView::Array(crate::path::collected(items, seq![b]))));
}

proof fn lemma_collected(items: Seq<JsonView>, b: Seq<char>, found: Seq<JsonView>)
    requires
        !b.contains('.'),
        found.len() == items.len(),
        forall|i: int| 0 <= i < items.len() ==> #[trigger] has_field(items[i], b, found[i]),
    ensures
        crate::path::collected(items, seq![b]) == found,
    decreases items.len(),
{
    if items.len() > 0 {
        let n = items.len() - 1;
        let d = items.drop_last();
        let f = found.drop_last();
        assert forall|i: int| 0 <= i < d.len() implies #[trigger] has_field(d[i], b, f[i]) by {
            assert(has_field(items[i], b, found[i]));
        }
        lemma_collected(d, b, f);
        assert(has_field(items[n], b, found[n]));
        lemma_field_is_read(items[n], b, found[n]);
        crate::project::lemma_plain_path(b);
        assert(get_path(items.last(), seq![b]) == Some(found.last()));
        assert(f.push(found.last()) == found);
    } else {
        assert(found == Seq::<JsonView>::empty());
    }
}

} // verus!
