//! Which documents a filter selects.

use crate::json::{entry_views, views, Json, JsonView};
use crate::object::{bool_of, nat_of, opt_view};
use crate::path::{get_nested_value, get_path};
use crate::text::{begins_with, pieces, same_text, starts_with};
use crate::value::{alike, compare_values, equivalent, order_of, value_eq};
use crate::wire::{bare_text_of, json_to_string};
use vstd::prelude::*;

verus! {

broadcast use crate::json::group_json_views;

/// Whether a regular expression is found in a text; nothing where the pattern
/// is no regular expression.
pub uninterp spec fn regex_search(pattern: Seq<char>, text: Seq<char>) -> Option<bool>;

/// `regex::Regex::new` on the pattern, and `is_match` of what it makes on the
/// text: the outcome depends on the two texts alone.
#[verifier::external_body]
fn search(pattern: &str, text: &str) -> (r: Option<bool>)
    ensures
        r == regex_search(pattern@, text@),
{
    match regex::Regex::new(pattern) {
        Ok(re) => Some(re.is_match(text)),
        Err(_) => None,
    }
}

/// Whether the outcome of a search counts as a match.
pub fn search_matches(outcome: Option<bool>) -> (r: bool)
    ensures
        r == (outcome == Some(true)),
{
    match outcome {
        Some(found) => found,
        None => false,
    }
}

/// Whether all keys of an object are operators, and it has one.
pub open spec fn is_operators(v: JsonView) -> bool {
    match v {
        JsonView::Object(o) => o.len() > 0 && forall|i: int|
            0 <= i < o.len() ==> begins_with((#[trigger] o[i]).0, "$"@),
        _ => false,
    }
}

/// Whether some item of a list counts as equal to a value.
pub open spec fn holds_alike(a: Seq<JsonView>, v: JsonView) -> bool {
    exists|i: int| 0 <= i < a.len() && equivalent(#[trigger] a[i], v)
}

/// Whether a value is among the listed ones; an array is where one of its items
/// is.
pub open spec fn among(d: JsonView, list: Seq<JsonView>) -> bool {
    exists|j: int|
        0 <= j < list.len() && match d {
            JsonView::Array(a) => holds_alike(a, #[trigger] list[j]),
            _ => equivalent(d, list[j]),
        }
}

/// Whether a value, which may be missing, meets one operator.
pub open spec fn meets(d: Option<JsonView>, op: Seq<char>, arg: JsonView) -> bool {
    if op == "$eq"@ {
        alike(d, Some(arg))
    } else if op == "$ne"@ {
        !alike(d, Some(arg))
    } else if op == "$gt"@ {
        order_of(d, Some(arg)) > 0
    } else if op == "$gte"@ {
        order_of(d, Some(arg)) >= 0
    } else if op == "$lt"@ {
        order_of(d, Some(arg)) < 0
    } else if op == "$lte"@ {
        order_of(d, Some(arg)) <= 0
    } else if op == "$in"@ {
        d is Some && arg is Array && among(d->Some_0, arg->Array_0)
    } else if op == "$nin"@ {
        d is Some && arg is Array && !among(d->Some_0, arg->Array_0)
    } else if op == "$exists"@ {
        (bool_of(arg) != Some(false)) == (d is Some && d != Some(JsonView::Null))
    } else if op == "$regex"@ {
        d is Some && regex_search(bare_text_of(arg), bare_text_of(d->Some_0)) == Some(true)
    } else if op == "$size"@ {
        d matches Some(JsonView::Array(a)) && a.len() == match nat_of(arg) {
            Some(n) => n as nat,
            None => 0,
        }
    } else if op == "$all"@ {
        d matches Some(JsonView::Array(a)) && arg matches JsonView::Array(wanted) && forall|j: int|
            0 <= j < wanted.len() ==> holds_alike(a, #[trigger] wanted[j])
    } else {
        false
    }
}

/// Whether a value, which may be missing, meets a query: it counts as equal to
/// it, or the query is made of operators and the value meets them all.
pub open spec fn value_matches(d: Option<JsonView>, q: JsonView) -> bool {
    alike(d, Some(q)) || (is_operators(q) && forall|i: int|
        0 <= i < q->Object_0.len() ==> meets(
            d,
            (#[trigger] q->Object_0[i]).0,
            q->Object_0[i].1,
        ))
}

/// Whether a document meets a filter: all its entries.  What is no object
/// selects every document.
pub open spec fn selects(filter: JsonView, doc: JsonView) -> bool
    decreases filter, 0int,
{
    match filter {
        JsonView::Object(o) => forall|i: int|
            0 <= i < o.len() ==> entry_selects((#[trigger] o[i]).0, o[i].1, doc),
        _ => true,
    }
}

/// Whether a document meets one entry of a filter: a combination of filters, or
/// a query on what stands at a path.
pub open spec fn entry_selects(key: Seq<char>, v: JsonView, doc: JsonView) -> bool
    decreases v, 1int,
{
    if key == "$and"@ {
        match v {
            JsonView::Array(a) => forall|i: int| 0 <= i < a.len() ==> selects(#[trigger] a[i], doc),
            _ => false,
        }
    } else if key == "$or"@ {
        match v {
            JsonView::Array(a) => exists|i: int| 0 <= i < a.len() && selects(#[trigger] a[i], doc),
            _ => false,
        }
    } else if key == "$nor"@ {
        match v {
            JsonView::Array(a) => forall|i: int|
                0 <= i < a.len() ==> !selects(#[trigger] a[i], doc),
            _ => false,
        }
    } else if key == "$not"@ {
        !selects(v, doc)
    } else {
        value_matches(get_path(doc, pieces(key, '.')), v)
    }
}

/// Whether all keys of an object are operators, and it has one.
pub fn is_operator_object(v: &Json) -> (r: bool)
    ensures
        r == is_operators(v@),
{
    match v {
        Json::Object(o) => {
            if o.len() == 0 {
                return false;
            }
            let ghost e = entry_views(o@);
            let mut i: usize = 0;
            while i < o.len()
                invariant
                    i <= o@.len(),
                    e == entry_views(o@),
                    v@ == JsonView::Object(e),
                    forall|j: int| 0 <= j < i ==> begins_with((#[trigger] e[j]).0, "$"@),
                decreases o@.len() - i,
            {
                if !starts_with(o[i].0.as_str(), "$") {
                    assert(!begins_with(e[i as int].0, "$"@));
                    return false;
                }
                i = i + 1;
            }
            true
        },
        _ => false,
    }
}

/// Whether some item of a list counts as equal to a value.
fn any_alike(a: &Vec<Json>, v: &Json) -> (r: bool)
    ensures
        r == holds_alike(views(a@), v@),
{
    let mut i: usize = 0;
    while i < a.len()
        invariant
            i <= a@.len(),
            forall|j: int| 0 <= j < i ==> !equivalent(#[trigger] views(a@)[j], v@),
        decreases a@.len() - i,
    {
        if value_eq(Some(&a[i]), Some(v)) {
            assert(equivalent(views(a@)[i as int], v@));
            return true;
        }
        i = i + 1;
    }
    false
}

/// Whether a value is among the listed ones.
fn is_among(d: &Json, list: &Vec<Json>) -> (r: bool)
    ensures
        r == among(d@, views(list@)),
{
    let mut i: usize = 0;
    while i < list.len()
        invariant
            i <= list@.len(),
            forall|j: int|
                0 <= j < i ==> !match d@ {
                    JsonView::Array(a) => holds_alike(a, #[trigger] views(list@)[j]),
                    _ => equivalent(d@, views(list@)[j]),
                },
        decreases list@.len() - i,
    {
        let found = match d {
            Json::Array(a) => any_alike(a, &list[i]),
            _ => value_eq(Some(d), Some(&list[i])),
        };
        if found {
            assert(match d@ {
                JsonView::Array(a) => holds_alike(a, views(list@)[i as int]),
                _ => equivalent(d@, views(list@)[i as int]),
            });
            return true;
        }
        i = i + 1;
    }
    false
}

/// Whether every wanted value counts as equal to some item of a list.
fn has_all(a: &Vec<Json>, wanted: &Vec<Json>) -> (r: bool)
    ensures
        r == forall|j: int|
            0 <= j < wanted@.len() ==> holds_alike(views(a@), #[trigger] views(wanted@)[j]),
{
    let mut i: usize = 0;
    while i < wanted.len()
        invariant
            i <= wanted@.len(),
            forall|j: int| 0 <= j < i ==> holds_alike(views(a@), #[trigger] views(wanted@)[j]),
        decreases wanted@.len() - i,
    {
        if !any_alike(a, &wanted[i]) {
            assert(!holds_alike(views(a@), views(wanted@)[i as int]));
            return false;
        }
        i = i + 1;
    }
    true
}

/// Whether a value, which may be missing, meets one operator.
fn operator_holds(d: Option<&Json>, op: &str, arg: &Json) -> (r: bool)
    ensures
        r == meets(opt_view(d), op@, arg@),
{
    if same_text(op, "$eq") {
        value_eq(d, Some(arg))
    } else if same_text(op, "$ne") {
        !value_eq(d, Some(arg))
    } else if same_text(op, "$gt") {
        compare_values(d, Some(arg)) > 0
    } else if same_text(op, "$gte") {
        compare_values(d, Some(arg)) >= 0
    } else if same_text(op, "$lt") {
        compare_values(d, Some(arg)) < 0
    } else if same_text(op, "$lte") {
        compare_values(d, Some(arg)) <= 0
    } else if same_text(op, "$in") {
        match (d, arg) {
            (Some(x), Json::Array(list)) => is_among(x, list),
            _ => false,
        }
    } else if same_text(op, "$nin") {
        match (d, arg) {
            (Some(x), Json::Array(list)) => !is_among(x, list),
            _ => false,
        }
    } else if same_text(op, "$exists") {
        let there = match d {
            Some(x) => !x.is_null(),
            None => false,
        };
        let wanted = match arg.as_bool() {
            Some(b) => b,
            None => true,
        };
        wanted == there
    } else if same_text(op, "$regex") {
        match d {
            Some(x) => search_matches(
                search(json_to_string(arg).as_str(), json_to_string(x).as_str()),
            ),
            None => false,
        }
    } else if same_text(op, "$size") {
        match d {
            Some(Json::Array(a)) => a.len() as u64 == match arg.as_u64() {
                Some(n) => n,
                None => 0,
            },
            _ => false,
        }
    } else if same_text(op, "$all") {
        match (d, arg) {
            (Some(Json::Array(a)), Json::Array(wanted)) => has_all(a, wanted),
            _ => false,
        }
    } else {
        false
    }
}

/// Whether a value, which may be missing, meets a query.
pub fn match_value(doc_val: Option<&Json>, query_val: &Json) -> (r: bool)
    ensures
        r == value_matches(opt_view(doc_val), query_val@),
{
    if value_eq(doc_val, Some(query_val)) {
        return true;
    }
    if !is_operator_object(query_val) {
        return false;
    }
    match query_val {
        Json::Object(o) => {
            let ghost e = entry_views(o@);
            let mut i: usize = 0;
            while i < o.len()
                invariant
                    i <= o@.len(),
                    e == entry_views(o@),
                    query_val@ == JsonView::Object(e),
                    !alike(opt_view(doc_val), Some(query_val@)),
                    forall|j: int|
                        0 <= j < i ==> meets(opt_view(doc_val), (#[trigger] e[j]).0, e[j].1),
                decreases o@.len() - i,
            {
                if !operator_holds(doc_val, o[i].0.as_str(), &o[i].1) {
                    assert(!meets(opt_view(doc_val), e[i as int].0, e[i as int].1));
                    return false;
                }
                i = i + 1;
            }
            true
        },
        _ => false,
    }
}

/// Whether a document meets one entry of a filter.
fn match_entry(doc: &Json, key: &str, v: &Json) -> (r: bool)
    ensures
        r == entry_selects(key@, v@, doc@),
    decreases v, 1int,
{
    if same_text(key, "$and") {
        match v {
            Json::Array(a) => {
                let mut i: usize = 0;
                while i < a.len()
                    invariant
                        i <= a@.len(),
                        key@ == "$and"@,
                        *v == Json::Array(*a),
                        forall|j: int| 0 <= j < i ==> selects(#[trigger] views(a@)[j], doc@),
                    decreases a@.len() - i,
                {
                    assert(decreases_to!(*v => v->Array_0));
                    assert(decreases_to!(*a => a@[i as int]));
                    if !match_filter(doc, &a[i]) {
                        assert(!selects(v@->Array_0[i as int], doc@));
                        return false;
                    }
                    i = i + 1;
                }
                true
            },
            _ => false,
        }
    } else if same_text(key, "$or") {
        match v {
            Json::Array(_) => any_filter(doc, v),
            _ => false,
        }
    } else if same_text(key, "$nor") {
        match v {
            Json::Array(_) => !any_filter(doc, v),
            _ => false,
        }
    } else if same_text(key, "$not") {
        !match_filter(doc, v)
    } else {
        let dv = get_nested_value(doc, key);
        match_value(dv.as_ref(), v)
    }
}

/// Whether a document meets one of the listed filters.
fn any_filter(doc: &Json, v: &Json) -> (r: bool)
    ensures
        r == (v@ is Array && exists|i: int|
            0 <= i < v@->Array_0.len() && selects(#[trigger] v@->Array_0[i], doc@)),
    decreases v, 0int,
{
    match v {
        Json::Array(a) => {
            let ghost list = views(a@);
            let mut i: usize = 0;
            while i < a.len()
                invariant
                    i <= a@.len(),
                    *v == Json::Array(*a),
                    list == views(a@),
                    v@ == JsonView::Array(list),
                    forall|j: int| 0 <= j < i ==> !selects(#[trigger] list[j], doc@),
                decreases a@.len() - i,
            {
                assert(decreases_to!(*v => v->Array_0));
                assert(decreases_to!(*a => a@[i as int]));
                if match_filter(doc, &a[i]) {
                    assert(selects(list[i as int], doc@));
                    assert(selects(v@->Array_0[i as int], doc@));
                    return true;
                }
                i = i + 1;
            }
            false
        },
        _ => false,
    }
}

/// Whether a document meets a filter.
pub fn match_filter(doc: &Json, filter: &Json) -> (r: bool)
    ensures
        r == selects(filter@, doc@),
    decreases filter, 0int,
{
    match filter {
        Json::Object(o) => {
            let ghost e = entry_views(o@);
            let mut i: usize = 0;
            while i < o.len()
                invariant
                    i <= o@.len(),
                    *filter == Json::Object(*o),
                    e == entry_views(o@),
                    filter@ == JsonView::Object(e),
                    forall|j: int|
                        0 <= j < i ==> entry_selects((#[trigger] e[j]).0, e[j].1, doc@),
                decreases o@.len() - i,
            {
                assert(decreases_to!(*filter => filter->Object_0));
                assert(decreases_to!(*o => o@[i as int]));
                assert(decreases_to!(o@[i as int] => o@[i as int].1));
                if !match_entry(doc, o[i].0.as_str(), &o[i].1) {
                    assert(filter@->Object_0[i as int] == e[i as int]);
                    assert(!entry_selects(e[i as int].0, e[i as int].1, doc@));
                    return false;
                }
                i = i + 1;
            }
            true
        },
        _ => true,
    }
}

/// A filter of one entry.
pub open spec fn single(key: Seq<char>, v: JsonView) -> JsonView {
    JsonView::Object(seq![(key, v)])
}

/// A filter of one entry selects what the entry selects.
pub proof fn lemma_single(key: Seq<char>, v: JsonView, doc: JsonView)
    ensures
        selects(single(key, v), doc) == entry_selects(key, v, doc),
{
    let o = seq![(key, v)];
    assert(single(key, v)->Object_0[0] == (key, v));
}

/// The filter without entries selects every document.
pub proof fn lemma_empty_filter_selects_all(doc: JsonView)
    ensures
        selects(JsonView::Object(Seq::empty()), doc),
{
}

/// `$not` selects exactly what its filter does not.
pub proof fn lemma_not_negates(filter: JsonView, doc: JsonView)
    ensures
        selects(single("$not"@, filter), doc) == !selects(filter, doc),
{
    lemma_single("$not"@, filter, doc);
    reveal_strlit("$not");
    reveal_strlit("$and");
    reveal_strlit("$or");
    reveal_strlit("$nor");
    assert("$not"@[1] == 'n');
    assert("$and"@[1] == 'a');
    assert("$nor"@[3] == 'r');
    assert("$not"@[3] == 't');
}

/// `$nor` selects exactly what `$or` over the same filters does not.
pub proof fn lemma_nor_negates_or(filters: Seq<JsonView>, doc: JsonView)
    ensures
        selects(single("$nor"@, JsonView::Array(filters)), doc) == !selects(
            single("$or"@, JsonView::Array(filters)),
            doc,
        ),
{
    lemma_single("$nor"@, JsonView::Array(filters), doc);
    lemma_single("$or"@, JsonView::Array(filters), doc);
    reveal_strlit("$and");
    reveal_strlit("$or");
    reveal_strlit("$nor");
    assert("$nor"@[1] == 'n');
    assert("$and"@[1] == 'a');
}

/// `$and` over two filters selects what both select.
pub proof fn lemma_and_of_two(f: JsonView, g: JsonView, doc: JsonView)
    ensures
        selects(single("$and"@, JsonView::Array(seq![f, g])), doc) == (selects(f, doc) && selects(
            g,
            doc,
        )),
{
    let a = seq![f, g];
    lemma_single("$and"@, JsonView::Array(a), doc);
    assert(a[0] == f && a[1] == g);
}

/// Two filters with the entries of both select what both select.
pub proof fn lemma_entries_conjoin(
    a: Seq<(Seq<char>, JsonView)>,
    b: Seq<(Seq<char>, JsonView)>,
    doc: JsonView,
)
    ensures
        selects(JsonView::Object(a + b), doc) == (selects(JsonView::Object(a), doc) && selects(
            JsonView::Object(b),
            doc,
        )),
{
    let c = a + b;
    if selects(JsonView::Object(c), doc) {
        assert forall|i: int| 0 <= i < a.len() implies entry_selects(
            (#[trigger] a[i]).0,
            a[i].1,
            doc,
        ) by {
            assert(JsonView::Object(c)->Object_0[i] == a[i]);
        }
        assert forall|i: int| 0 <= i < b.len() implies entry_selects(
            (#[trigger] b[i]).0,
            b[i].1,
            doc,
        ) by {
            assert(JsonView::Object(c)->Object_0[a.len() + i] == b[i]);
        }
    } else {
        let i = choose|i: int|
            0 <= i < c.len() && !entry_selects((#[trigger] c[i]).0, c[i].1, doc);
        assert(i < a.len() ==> JsonView::Object(a)->Object_0[i] == c[i]);
        assert(i >= a.len() ==> JsonView::Object(b)->Object_0[i - a.len()] == c[i]);
    }
}

} // verus!
