//! Which part of a result a query gives, in what order, and what it shows.

use crate::filter::selects;
use crate::json::JsonView;
use crate::object::{field, float_of, well_formed};
use crate::project::{any_excludes, any_includes, asks_for, lemma_picked_fields, lemma_stripped_fields, projected};
use crate::querylaws::{
    has_field, integer, is_name, is_short, lacks_field, lemma_field_is_read, lemma_missing_field, lemma_text_order,
    precedes,
};
use crate::select::{answers, matching, sorts_to, window, QueryView};
use crate::sort::{
    comparable, descending, doc_order, is_sorting, key_value, lemma_comparable_consistent, ties,
};
use crate::path::get_path;
use crate::text::pieces;
use vstd::prelude::*;

verus! {

/// The documents that a filter selects are the list without the others, in its
/// order and as often as they stand in it.
pub proof fn lemma_matching_filters(filter: JsonView, docs: Seq<JsonView>)
    ensures
        matching(filter, docs) == docs.filter(|d: JsonView| selects(filter, d)),
    decreases docs.len(),
{
    reveal(Seq::filter);
    if docs.len() > 0 {
        lemma_matching_filters(filter, docs.drop_last());
    }
}

/// How many documents a page has, of how many there are.
pub open spec fn page_len(n: nat, skip: nat, limit: Option<u64>) -> nat {
    let rest = if skip < n {
        (n - skip) as nat
    } else {
        0
    };
    match limit {
        Some(l) => if l < rest {
            l as nat
        } else {
            rest
        },
        None => rest,
    }
}

proof fn lemma_window(s: Seq<JsonView>, skip: u64, limit: Option<u64>)
    ensures
        window(s, skip, limit).len() == page_len(s.len(), skip as nat, limit),
        forall|i: int|
            0 <= i < window(s, skip, limit).len() ==> #[trigger] window(s, skip, limit)[i] == s[skip
                + i],
{
}

/// A page of a result in its own order: it has as many documents as are asked
/// for and left, and they are those that follow the skipped ones, each as the
/// projection shows it.
pub proof fn lemma_page(q: QueryView, docs: Seq<JsonView>, r: Seq<JsonView>)
    requires
        q.sort is None,
        answers(q, docs, r),
    ensures
        ({
            let all = docs.filter(|d: JsonView| selects(q.filter, d));
            &&& r.len() == page_len(all.len(), q.skip as nat, q.limit)
            &&& forall|i: int|
                0 <= i < r.len() ==> #[trigger] r[i] == match q.projection {
                    Some(p) => projected(p, all[q.skip + i]),
                    None => all[q.skip + i],
                }
        }),
{
    lemma_matching_filters(q.filter, docs);
    let s = choose|s: Seq<JsonView>| #[trigger]
        sorts_to(q.sort, matching(q.filter, docs), s) && r == crate::select::shown(
            q.projection,
            window(s, q.skip, q.limit),
        );
    lemma_window(s, q.skip, q.limit);
}

/// Two pages that follow each other are the page of both sizes; the pages of one
/// size, one after the other, are the whole result.
pub proof fn lemma_pages_follow(
    q: QueryView,
    size: u64,
    next: u64,
    docs: Seq<JsonView>,
    first: Seq<JsonView>,
    second: Seq<JsonView>,
    both: Seq<JsonView>,
    whole: Seq<JsonView>,
)
    requires
        q.sort is None,
        q.skip + size <= u64::MAX,
        size + next <= u64::MAX,
        answers((QueryView { limit: Some(size), ..q }), docs, first),
        answers((QueryView { limit: Some(next), skip: (q.skip + size) as u64, ..q }), docs, second),
        answers((QueryView { limit: Some((size + next) as u64), ..q }), docs, both),
        answers((QueryView { limit: None, skip: 0, ..q }), docs, whole),
    ensures
        first + second == both,
        forall|i: int| 0 <= i < first.len() ==> #[trigger] first[i] == whole[q.skip + i],
{
    lemma_page(QueryView { limit: Some(size), ..q }, docs, first);
    lemma_page(QueryView { limit: Some(next), skip: (q.skip + size) as u64, ..q }, docs, second);
    lemma_page(QueryView { limit: Some((size + next) as u64), ..q }, docs, both);
    lemma_page(QueryView { limit: None, skip: 0, ..q }, docs, whole);
    let f = first + second;
    assert(f.len() == both.len());
    assert forall|i: int| 0 <= i < f.len() implies f[i] == both[i] by {
        if i >= first.len() {
            assert(f[i] == second[i - first.len()]);
        }
    }
    assert(f == both);
}

/// A page of a sorted result: it has as many documents as are asked for and
/// left, and they follow the skipped ones in the order that is asked for.
pub proof fn lemma_sorted_page(
    q: QueryView,
    sort: JsonView,
    docs: Seq<JsonView>,
    r: Seq<JsonView>,
) -> (all: Seq<JsonView>)
    requires
        q.sort == Some(sort),
        answers(q, docs, r),
    ensures
        is_sorting(sort, docs.filter(|d: JsonView| selects(q.filter, d)), all),
        all.len() == docs.filter(|d: JsonView| selects(q.filter, d)).len(),
        r.len() == page_len(all.len(), q.skip as nat, q.limit),
        forall|i: int|
            0 <= i < r.len() ==> #[trigger] r[i] == match q.projection {
                Some(p) => projected(p, all[q.skip + i]),
                None => all[q.skip + i],
            },
{
    broadcast use vstd::seq_lib::group_to_multiset_ensures;

    lemma_matching_filters(q.filter, docs);
    let m = matching(q.filter, docs);
    let s = choose|s: Seq<JsonView>| #[trigger]
        sorts_to(q.sort, m, s) && r == crate::select::shown(
            q.projection,
            window(s, q.skip, q.limit),
        );
    lemma_window(s, q.skip, q.limit);
    assert(s.to_multiset().len() == m.to_multiset().len());
    s
}

/// The sort by one key, upwards or downwards.
pub open spec fn by_key(k: Seq<char>, down: bool) -> JsonView {
    JsonView::Object(
        seq![
            (
                k,
                integer(
                    if down {
                        -1
                    } else {
                        1
                    },
                ),
            ),
        ],
    )
}

/// Of a direction only its sign counts: a negative one goes downwards, every
/// other one upwards, and so does what is no integer.
pub proof fn lemma_directions(k: Seq<char>, n: i64, v: JsonView, a: JsonView, b: JsonView)
    requires
        !(v is Number),
    ensures
        doc_order(seq![(k, integer(n as int))], a, b) == doc_order(by_key(k, n < 0)->Object_0, a, b),
        doc_order(seq![(k, v)], a, b) == doc_order(by_key(k, false)->Object_0, a, b),
{
    let none = Seq::<(Seq<char>, JsonView)>::empty();
    assert(seq![(k, integer(n as int))].drop_first() == none);
    assert(seq![(k, v)].drop_first() == none);
    assert(by_key(k, true)->Object_0.drop_first() == none);
    assert(by_key(k, false)->Object_0.drop_first() == none);
    assert(descending(integer(n as int)) == (n < 0));
    assert(!descending(v));
    assert(descending(integer(-1)) && !descending(integer(1)));
}

/// Whether a document has an integer in a field.
pub open spec fn has_integer(doc: JsonView, k: Seq<char>) -> bool {
    exists|n: int| is_short(n) && #[trigger] has_field(doc, k, integer(n))
}

/// The integer that a document has in a field.
pub open spec fn integer_at(doc: JsonView, k: Seq<char>) -> int {
    choose|n: int| is_short(n) && #[trigger] has_field(doc, k, integer(n))
}

proof fn lemma_integer_key(doc: JsonView, k: Seq<char>)
    requires
        is_name(k),
        has_integer(doc, k),
    ensures
        key_value(k, doc) == Some(integer(integer_at(doc, k))),
        is_short(integer_at(doc, k)),
        float_of(integer(integer_at(doc, k))) is Some,
{
    lemma_field_is_read(doc, k, integer(integer_at(doc, k)));
}

proof fn lemma_integer_order(k: Seq<char>, down: bool, a: JsonView, b: JsonView)
    requires
        is_name(k),
        has_integer(a, k),
        has_integer(b, k),
    ensures
        ({
            let o = doc_order(by_key(k, down)->Object_0, a, b);
            let m = integer_at(a, k);
            let n = integer_at(b, k);
            &&& o == 0 <==> m == n
            &&& o < 0 <==> (if down {
                m > n
            } else {
                m < n
            })
        }),
{
    lemma_integer_key(a, k);
    lemma_integer_key(b, k);
    let m = integer_at(a, k);
    let n = integer_at(b, k);
    crate::float::lemma_integer_arithmetic(m, n);
    let keys = by_key(k, down)->Object_0;
    assert(keys[0].0 == k);
    assert(descending(keys[0].1) == down);
    assert(keys.drop_first().len() == 0);
    assert(doc_order(keys.drop_first(), a, b) == 0);
}

proof fn lemma_same_filter(s: Seq<JsonView>, p: spec_fn(JsonView) -> bool, q: spec_fn(JsonView) -> bool)
    requires
        forall|i: int| 0 <= i < s.len() ==> p(#[trigger] s[i]) == q(s[i]),
    ensures
        s.filter(p) == s.filter(q),
    decreases s.len(),
{
    reveal(Seq::filter);
    if s.len() > 0 {
        lemma_same_filter(s.drop_last(), p, q);
    }
}

/// Documents that are sorted by a key at which they have integers come in the
/// order of the integers, upwards or downwards as is asked for; no document is
/// lost or added, and those with the same integer stay in their order.
pub proof fn lemma_sorted_by_integers(
    k: Seq<char>,
    down: bool,
    before: Seq<JsonView>,
    after: Seq<JsonView>,
    n: int,
)
    requires
        is_name(k),
        forall|i: int| 0 <= i < before.len() ==> has_integer(#[trigger] before[i], k),
        is_sorting(by_key(k, down), before, after),
    ensures
        after.to_multiset() == before.to_multiset(),
        forall|i: int, j: int|
            0 <= i < j < after.len() ==> if down {
                integer_at(#[trigger] after[i], k) >= integer_at(#[trigger] after[j], k)
            } else {
                integer_at(after[i], k) <= integer_at(after[j], k)
            },
        after.filter(|d: JsonView| integer_at(d, k) == n) == before.filter(
            |d: JsonView| integer_at(d, k) == n,
        ),
{
    broadcast use vstd::seq_lib::group_to_multiset_ensures;

    let keys = by_key(k, down)->Object_0;
    assert forall|i: int| 0 <= i < before.len() implies (key_value(k, #[trigger] before[i]) matches Some(
        v,
    ) ==> float_of(v) is Some) by {
        lemma_integer_key(before[i], k);
    }
    assert(comparable(k, before));
    assert(keys[0].0 == k && keys.len() == 1);
    lemma_comparable_consistent(keys, before);
    assert forall|i: int| 0 <= i < after.len() implies has_integer(#[trigger] after[i], k) by {
        assert(after.to_multiset().count(after[i]) > 0);
        assert(before.to_multiset().count(after[i]) > 0);
        assert(before.contains(after[i]));
    }
    assert forall|i: int, j: int| 0 <= i < j < after.len() implies if down {
        integer_at(#[trigger] after[i], k) >= integer_at(#[trigger] after[j], k)
    } else {
        integer_at(after[i], k) <= integer_at(after[j], k)
    } by {
        assert(doc_order(keys, after[i], after[j]) <= 0);
        lemma_integer_order(k, down, after[i], after[j]);
    }
    let p = |d: JsonView| integer_at(d, k) == n;
    if exists|d: JsonView| before.contains(d) && integer_at(d, k) == n {
        let d = choose|d: JsonView| before.contains(d) && integer_at(d, k) == n;
        let q = |x: JsonView| doc_order(keys, x, d) == 0;
        assert(ties(keys, after, d) == ties(keys, before, d));
        assert forall|i: int| 0 <= i < before.len() implies p(#[trigger] before[i]) == q(before[i]) by {
            lemma_integer_order(k, down, before[i], d);
        }
        assert forall|i: int| 0 <= i < after.len() implies p(#[trigger] after[i]) == q(after[i]) by {
            lemma_integer_order(k, down, after[i], d);
        }
        lemma_same_filter(before, p, q);
        lemma_same_filter(after, p, q);
    } else {
        let never = |x: JsonView| false;
        assert forall|i: int| 0 <= i < before.len() implies !p(#[trigger] before[i]) by {
            assert(before.contains(before[i]));
        }
        assert forall|i: int| 0 <= i < after.len() implies !p(#[trigger] after[i]) by {
            assert(after.to_multiset().count(after[i]) > 0);
            assert(before.to_multiset().count(after[i]) > 0);
            assert(before.contains(after[i]));
        }
        lemma_same_filter(before, p, never);
        lemma_same_filter(after, p, never);
        lemma_nothing_kept(before);
        lemma_nothing_kept(after);
    }
}

proof fn lemma_nothing_kept(s: Seq<JsonView>)
    ensures
        s.filter(|x: JsonView| false) == Seq::<JsonView>::empty(),
    decreases s.len(),
{
    reveal(Seq::filter);
    if s.len() > 0 {
        lemma_nothing_kept(s.drop_last());
    }
}

/// Documents that are sorted by two keys at which they have integers come in the
/// order of the first, and where that is the same, of the second.
pub proof fn lemma_second_key_decides_ties(
    k: Seq<char>,
    l: Seq<char>,
    before: Seq<JsonView>,
    after: Seq<JsonView>,
    i: int,
    j: int,
)
    requires
        is_name(k),
        is_name(l),
        forall|n: int|
            0 <= n < before.len() ==> has_integer(#[trigger] before[n], k) && has_integer(before[n], l),
        is_sorting(JsonView::Object(seq![(k, integer(1)), (l, integer(1))]), before, after),
        0 <= i < j < after.len(),
    ensures
        integer_at(after[i], k) <= integer_at(after[j], k),
        integer_at(after[i], k) == integer_at(after[j], k) ==> integer_at(after[i], l) <= integer_at(
            after[j],
            l,
        ),
{
    broadcast use vstd::seq_lib::group_to_multiset_ensures;

    let keys = seq![(k, integer(1)), (l, integer(1))];
    assert forall|n: int| 0 <= n < before.len() implies (key_value(k, #[trigger] before[n]) matches Some(
        v,
    ) ==> float_of(v) is Some) && (key_value(l, before[n]) matches Some(v) ==> float_of(
        v,
    ) is Some) by {
        lemma_integer_key(before[n], k);
        lemma_integer_key(before[n], l);
    }
    assert(comparable(k, before) && comparable(l, before));
    assert(keys[0].0 == k && keys[1].0 == l);
    lemma_comparable_consistent(keys, before);
    let a = after[i];
    let b = after[j];
    assert(after.to_multiset().count(a) > 0 && after.to_multiset().count(b) > 0);
    assert(before.to_multiset().count(a) > 0 && before.to_multiset().count(b) > 0);
    assert(before.contains(a) && before.contains(b));
    assert(doc_order(keys, a, b) <= 0);
    lemma_integer_order(k, false, a, b);
    lemma_integer_order(l, false, a, b);
    assert(keys.drop_first() == by_key(l, false)->Object_0);
    assert(by_key(k, false)->Object_0[0] == keys[0]);
    assert(by_key(k, false)->Object_0.drop_first().len() == 0);
    assert(doc_order(by_key(k, false)->Object_0.drop_first(), a, b) == 0);
}

/// Documents that are sorted by a key at which they have texts come in the order
/// of the texts, or the other way round where that is asked for; those without
/// the key come first, or last.
pub proof fn lemma_sorted_by_texts(
    k: Seq<char>,
    down: bool,
    before: Seq<JsonView>,
    after: Seq<JsonView>,
    i: int,
    j: int,
    s: Seq<char>,
    t: Seq<char>,
)
    requires
        is_name(k),
        forall|n: int|
            0 <= n < before.len() ==> lacks_field(#[trigger] before[n], k) || exists|x: Seq<char>|
                #[trigger] has_field(before[n], k, JsonView::String(x)),
        is_sorting(by_key(k, down), before, after),
        0 <= i < j < after.len(),
    ensures
        has_field(after[i], k, JsonView::String(s)) && has_field(after[j], k, JsonView::String(t)) ==> s
            == t || (if down {
            precedes(t, s)
        } else {
            precedes(s, t)
        }),
        lacks_field(after[j], k) && !down ==> lacks_field(after[i], k),
        lacks_field(after[i], k) && down ==> lacks_field(after[j], k),
{
    broadcast use vstd::seq_lib::group_to_multiset_ensures;

    let keys = by_key(k, down)->Object_0;
    assert forall|n: int| 0 <= n < before.len() implies (key_value(k, #[trigger] before[n]) matches Some(
        v,
    ) ==> crate::object::str_of(v) is Some) by {
        if lacks_field(before[n], k) {
            lemma_missing_field(before[n], k);
        } else {
            let x = choose|x: Seq<char>| #[trigger] has_field(before[n], k, JsonView::String(x));
            lemma_field_is_read(before[n], k, JsonView::String(x));
        }
    }
    assert(comparable(k, before));
    assert(keys[0].0 == k && keys.len() == 1);
    lemma_comparable_consistent(keys, before);
    let a = after[i];
    let b = after[j];
    assert(after.to_multiset().count(a) > 0 && after.to_multiset().count(b) > 0);
    assert(before.to_multiset().count(a) > 0 && before.to_multiset().count(b) > 0);
    assert(before.contains(a) && before.contains(b));
    assert(doc_order(keys, a, b) <= 0);
    assert(descending(keys[0].1) == down);
    assert(keys.drop_first().len() == 0);
    assert(doc_order(keys.drop_first(), a, b) == 0);
    if has_field(a, k, JsonView::String(s)) {
        lemma_field_is_read(a, k, JsonView::String(s));
    }
    if has_field(b, k, JsonView::String(t)) {
        lemma_field_is_read(b, k, JsonView::String(t));
    }
    lemma_text_order(s, t);
    if lacks_field(a, k) {
        lemma_missing_field(a, k);
    } else {
        let x = choose|x: Seq<char>| #[trigger] has_field(a, k, JsonView::String(x));
        lemma_field_is_read(a, k, JsonView::String(x));
    }
    if lacks_field(b, k) {
        lemma_missing_field(b, k);
    } else {
        let x = choose|x: Seq<char>| #[trigger] has_field(b, k, JsonView::String(x));
        lemma_field_is_read(b, k, JsonView::String(x));
    }
}

/// Whether every mark of a projection is one of two.
pub open spec fn all_marked(o: Seq<(Seq<char>, JsonView)>, a: JsonView, b: JsonView) -> bool {
    o.len() > 0 && forall|i: int|
        0 <= i < o.len() ==> !(#[trigger] o[i]).0.contains('.') && (o[i].1 == a || o[i].1 == b)
}

pub open spec fn names_key(o: Seq<(Seq<char>, JsonView)>, k: Seq<char>) -> bool {
    exists|i: int| 0 <= i < o.len() && (#[trigger] o[i]).0 == k
}

/// A projection by ones shows the named fields and `_id`, one by zeros all but
/// the named fields; one that does both shows the whole document.
pub proof fn lemma_projection_shows(
    o: Seq<(Seq<char>, JsonView)>,
    doc: JsonView,
    k: Seq<char>,
)
    requires
        doc is Object,
        well_formed(doc),
    ensures
        all_marked(o, integer(1), JsonView::Bool(true)) ==> field(
            projected(JsonView::Object(o), doc),
            k,
        ) == (if k == "_id"@ || names_key(o, k) {
            field(doc, k)
        } else {
            None
        }),
        all_marked(o, integer(0), JsonView::Bool(false)) ==> field(
            projected(JsonView::Object(o), doc),
            k,
        ) == (if names_key(o, k) {
            None
        } else {
            field(doc, k)
        }),
        (exists|i: int, j: int|
            0 <= i < o.len() && 0 <= j < o.len() && (#[trigger] o[i]).1 == integer(1) && (
            #[trigger] o[j]).1 == integer(0)) ==> projected(JsonView::Object(o), doc) == doc,
{
    if all_marked(o, integer(1), JsonView::Bool(true)) {
        assert(crate::project::includes(o[0].1));
        assert(any_includes(o));
        assert(!any_excludes(o));
        lemma_picked_fields(o, doc, k);
        assert(asks_for(o, k) == names_key(o, k)) by {
            if names_key(o, k) {
                let i = choose|i: int| 0 <= i < o.len() && (#[trigger] o[i]).0 == k;
                assert(crate::project::includes(o[i].1));
            }
        }
    }
    if all_marked(o, integer(0), JsonView::Bool(false)) {
        assert(crate::project::excludes(o[0].1));
        assert(any_excludes(o));
        assert(!any_includes(o));
        lemma_stripped_fields(o, doc, k);
    }
    if exists|i: int, j: int|
        0 <= i < o.len() && 0 <= j < o.len() && (#[trigger] o[i]).1 == integer(1) && (
        #[trigger] o[j]).1 == integer(0) {
        let (i, j) = choose|i: int, j: int|
            0 <= i < o.len() && 0 <= j < o.len() && (#[trigger] o[i]).1 == integer(1) && (
            #[trigger] o[j]).1 == integer(0);
        assert(crate::project::includes(o[i].1));
        assert(crate::project::excludes(o[j].1));
    }
}

/// What is no object shows the whole document, and so does an empty projection.
pub proof fn lemma_no_projection_shows_all(p: JsonView, doc: JsonView)
    requires
        p matches JsonView::Object(o) ==> o.len() == 0,
    ensures
        projected(p, doc) == doc,
{
}

/// A projection by a path with a dot shows what stands there, and one that leaves
/// out a path leaves out what stands there.
pub proof fn lemma_paths_are_shown(
    doc: JsonView,
    a: Seq<char>,
    x: JsonView,
    b: Seq<char>,
    y: JsonView,
)
    requires
        well_formed(doc),
        has_field(doc, a, x),
        has_field(x, b, y),
        !a.contains('.'),
        !b.contains('.'),
        a != "_id"@,
    ensures
        ({
            let k = a + seq!['.'] + b;
            let shown = projected(JsonView::Object(seq![(k, integer(1))]), doc);
            let hidden = projected(JsonView::Object(seq![(k, integer(0))]), doc);
            &&& get_path(shown, pieces(k, '.')) == Some(y)
            &&& get_path(hidden, pieces(k, '.')) is None
        }),
{
    let k = a + seq!['.'] + b;
    let path = pieces(k, '.');
    crate::text::lemma_pieces_linked(a, b, '.');
    crate::project::lemma_plain_path(a);
    crate::project::lemma_plain_path(b);
    assert(path == seq![a] + seq![b]);
    assert(path.drop_first() == seq![b]);
    assert(path.drop_first().drop_first().len() == 0);
    crate::querylaws::lemma_path_is_read(doc, a, x, b, y);
    lemma_field_is_read(doc, a, x);
    let o = seq![(k, integer(1))];
    let p = seq![(k, integer(0))];
    let none = Seq::<(Seq<char>, JsonView)>::empty();
    assert(crate::project::includes(o[0].1) && !crate::project::excludes(o[0].1));
    assert(crate::project::excludes(p[0].1) && !crate::project::includes(p[0].1));
    assert(any_includes(o) && !any_excludes(o) && any_excludes(p) && !any_includes(p));
    assert(o.drop_last() == none && p.drop_last() == none);
    reveal_strlit("_id");
    assert(k != "_id"@) by {
        assert(k[a.len() as int] == '.');
        assert("_id"@.len() == 3 && "_id"@[0] == '_' && "_id"@[1] == 'i' && "_id"@[2] == 'd');
    }
    let out = crate::project::only_id(doc);
    assert(crate::project::picked(o.drop_last(), doc) == out);
    let e = out->Object_0;
    crate::object::lemma_key_at_is(e, a, e.len() as int);
    assert(crate::path::child(e, a) is Object);
    assert(path[0] == a);
    assert(crate::path::settable(crate::path::child(e, a), path.drop_first()));
    assert(crate::path::settable(out, path));
    crate::path::lemma_get_after_set(out, path, y);
    assert(crate::project::stripped(p.drop_last(), doc) == doc);
    assert(crate::path::through_objects(x, path.drop_first()));
    assert(crate::path::through_objects(doc, path));
    crate::path::lemma_get_after_unset(doc, path);
}

} // verus!
