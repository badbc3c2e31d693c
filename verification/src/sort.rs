//! Putting documents in order.

use crate::json::{entry_views, views, Json, JsonView};
use crate::object::{float_of, int_of, str_of};
use crate::path::{get_nested_value, get_path};
use crate::text::pieces;
use crate::value::{compare_values, order_of};
use vstd::prelude::*;

verus! {

broadcast use crate::json::group_json_views;

/// Whether a direction turns the order round: it is a negative integer.
pub open spec fn descending(dir: JsonView) -> bool {
    int_of(dir) matches Some(d) && d < 0
}

/// What a document has at a sort key.
pub open spec fn key_value(key: Seq<char>, doc: JsonView) -> Option<JsonView> {
    get_path(doc, pieces(key, '.'))
}

/// Which of two documents comes first: the first key on which they differ
/// decides.
pub open spec fn doc_order(keys: Seq<(Seq<char>, JsonView)>, a: JsonView, b: JsonView) -> int
    decreases keys.len(),
{
    if keys.len() == 0 {
        0
    } else {
        let c = order_of(key_value(keys[0].0, a), key_value(keys[0].0, b));
        if c == 0 {
            doc_order(keys.drop_first(), a, b)
        } else if descending(keys[0].1) {
            -c
        } else {
            c
        }
    }
}

/// Whether the keys order the documents without contradiction.
pub open spec fn consistent(keys: Seq<(Seq<char>, JsonView)>, docs: Seq<JsonView>) -> bool {
    forall|a: JsonView, b: JsonView, c: JsonView|
        docs.contains(a) && docs.contains(b) && docs.contains(c) && #[trigger] doc_order(keys, a, b)
            <= 0 && #[trigger] doc_order(keys, b, c) <= 0 ==> doc_order(keys, a, c) <= 0
}

/// Whether no document comes after one that it should precede.
pub open spec fn ordered(keys: Seq<(Seq<char>, JsonView)>, docs: Seq<JsonView>) -> bool {
    forall|i: int, j: int|
        0 <= i < j < docs.len() ==> doc_order(keys, #[trigger] docs[i], #[trigger] docs[j]) <= 0
}

/// The documents that tie with one, in the order in which they stand.
pub open spec fn ties(
    keys: Seq<(Seq<char>, JsonView)>,
    docs: Seq<JsonView>,
    d: JsonView,
) -> Seq<JsonView> {
    docs.filter(|x: JsonView| doc_order(keys, x, d) == 0)
}

/// Whether documents that tie stand in the same order in both lists.
pub open spec fn keeps_ties(
    keys: Seq<(Seq<char>, JsonView)>,
    before: Seq<JsonView>,
    after: Seq<JsonView>,
) -> bool {
    forall|d: JsonView|
        before.contains(d) ==> #[trigger] ties(keys, after, d) == ties(keys, before, d)
}

/// Whether a list is what sorting makes of another.  No document is lost or
/// added; where the keys order the documents without contradiction the list is
/// ordered, and documents that tie keep their order.  What is no object leaves
/// the list alone.
pub open spec fn is_sorting(
    sort: JsonView,
    before: Seq<JsonView>,
    after: Seq<JsonView>,
) -> bool {
    &&& after.to_multiset() == before.to_multiset()
    &&& match sort {
        JsonView::Object(keys) => consistent(keys, before) ==> ordered(keys, after) && keeps_ties(
            keys,
            before,
            after,
        ),
        _ => after == before,
    }
}

/// Two documents compare the same way round from either side.
pub proof fn lemma_doc_order_antisymmetric(
    keys: Seq<(Seq<char>, JsonView)>,
    a: JsonView,
    b: JsonView,
)
    ensures
        doc_order(keys, a, b) == -doc_order(keys, b, a),
    decreases keys.len(),
{
    if keys.len() > 0 {
        crate::value::lemma_order_antisymmetric(
            key_value(keys[0].0, a),
            key_value(keys[0].0, b),
        );
        lemma_doc_order_antisymmetric(keys.drop_first(), a, b);
    }
}

/// Whether the values that documents have at a key can be compared with each
/// other: all are numbers, or all are texts, but for those that are missing.
pub open spec fn comparable(key: Seq<char>, docs: Seq<JsonView>) -> bool {
    ||| forall|i: int|
        0 <= i < docs.len() ==> (key_value(key, #[trigger] docs[i]) matches Some(v) ==> float_of(
            v,
        ) is Some)
    ||| forall|i: int|
        0 <= i < docs.len() ==> (key_value(key, #[trigger] docs[i]) matches Some(v) ==> str_of(
            v,
        ) is Some)
}

proof fn lemma_key_transitive(
    key: Seq<char>,
    docs: Seq<JsonView>,
    a: JsonView,
    b: JsonView,
    c: JsonView,
)
    requires
        comparable(key, docs),
        docs.contains(a),
        docs.contains(b),
        docs.contains(c),
        order_of(key_value(key, a), key_value(key, b)) <= 0,
        order_of(key_value(key, b), key_value(key, c)) <= 0,
    ensures
        order_of(key_value(key, a), key_value(key, c)) <= 0,
{
    let i = choose|i: int| 0 <= i < docs.len() && docs[i] == a;
    let j = choose|i: int| 0 <= i < docs.len() && docs[i] == b;
    let k = choose|i: int| 0 <= i < docs.len() && docs[i] == c;
    assert(docs[i] == a && docs[j] == b && docs[k] == c);
    if let (Some(x), Some(y), Some(z)) = (
        key_value(key, a),
        key_value(key, b),
        key_value(key, c),
    ) {
        if float_of(x) is Some && float_of(y) is Some && float_of(z) is Some {
            crate::value::lemma_number_order_transitive(x, y, z);
        } else {
            crate::value::lemma_text_value_order_transitive(
                x->String_0,
                y->String_0,
                z->String_0,
            );
        }
    }
}

/// Keys at which the documents have comparable values order them without
/// contradiction.
pub proof fn lemma_comparable_consistent(keys: Seq<(Seq<char>, JsonView)>, docs: Seq<JsonView>)
    requires
        forall|i: int| 0 <= i < keys.len() ==> comparable((#[trigger] keys[i]).0, docs),
    ensures
        consistent(keys, docs),
    decreases keys.len(),
{
    if keys.len() > 0 {
        let rest = keys.drop_first();
        let key = keys[0].0;
        assert forall|i: int| 0 <= i < rest.len() implies comparable(
            (#[trigger] rest[i]).0,
            docs,
        ) by {
            assert(rest[i] == keys[i + 1]);
        }
        lemma_comparable_consistent(rest, docs);
        assert forall|a: JsonView, b: JsonView, c: JsonView|
            docs.contains(a) && docs.contains(b) && docs.contains(c) && #[trigger] doc_order(
                keys,
                a,
                b,
            ) <= 0 && #[trigger] doc_order(keys, b, c) <= 0 implies doc_order(keys, a, c)
            <= 0 by {
            let x = key_value(key, a);
            let y = key_value(key, b);
            let z = key_value(key, c);
            crate::value::lemma_order_antisymmetric(x, y);
            crate::value::lemma_order_antisymmetric(y, z);
            crate::value::lemma_order_antisymmetric(x, z);
            if order_of(x, y) <= 0 && order_of(y, z) <= 0 {
                lemma_key_transitive(key, docs, a, b, c);
            }
            if order_of(y, x) <= 0 && order_of(z, y) <= 0 {
                lemma_key_transitive(key, docs, c, b, a);
            }
            if order_of(x, z) <= 0 && order_of(z, y) <= 0 {
                lemma_key_transitive(key, docs, a, c, b);
            }
            if order_of(z, x) <= 0 && order_of(x, y) <= 0 {
                lemma_key_transitive(key, docs, c, a, b);
            }
            if order_of(y, z) <= 0 && order_of(z, x) <= 0 {
                lemma_key_transitive(key, docs, b, c, a);
            }
            if order_of(y, x) <= 0 && order_of(x, z) <= 0 {
                lemma_key_transitive(key, docs, b, a, c);
            }
            if order_of(x, y) == 0 && order_of(y, z) == 0 {
                assert(doc_order(rest, a, b) <= 0);
                assert(doc_order(rest, b, c) <= 0);
            }
        }
    }
}

/// Which of two documents comes first by the keys from a position on.
fn compare_docs(keys: &Vec<(String, Json)>, from: usize, a: &Json, b: &Json) -> (r: i32)
    requires
        from <= keys@.len(),
    ensures
        r == doc_order(entry_views(keys@).skip(from as int), a@, b@),
        -1 <= r <= 1,
    decreases keys@.len() - from,
{
    if from == keys.len() {
        return 0;
    }
    let ghost k = entry_views(keys@).skip(from as int);
    assert(k[0] == entry_views(keys@)[from as int]);
    assert(k.drop_first() == entry_views(keys@).skip(from + 1));
    let va = get_nested_value(a, keys[from].0.as_str());
    let vb = get_nested_value(b, keys[from].0.as_str());
    let c = compare_values(va.as_ref(), vb.as_ref());
    proof {
        crate::value::lemma_order_antisymmetric(key_value(k[0].0, a@), key_value(k[0].0, b@));
    }
    if c == 0 {
        compare_docs(keys, from + 1, a, b)
    } else {
        let turned = match keys[from].1.as_i64() {
            Some(d) => d < 0,
            None => false,
        };
        if turned {
            -c
        } else {
            c
        }
    }
}

proof fn lemma_insert_filter(
    s: Seq<JsonView>,
    p: int,
    x: JsonView,
    keep: spec_fn(JsonView) -> bool,
)
    requires
        0 <= p <= s.len(),
        keep(x) ==> forall|i: int| p <= i < s.len() ==> !keep(#[trigger] s[i]),
    ensures
        s.insert(p, x).filter(keep) == s.push(x).filter(keep),
    decreases s.len() - p,
{
    reveal(Seq::filter);
    if p == s.len() {
        assert(s.insert(p, x) == s.push(x));
    } else {
        let d = s.drop_last();
        assert(s.insert(p, x).drop_last() == d.insert(p, x));
        assert(s.insert(p, x).last() == s.last());
        assert(s.push(x).drop_last() == s);
        assert(d.push(x).drop_last() == d);
        lemma_insert_filter(d, p, x, keep);
        let f = d.filter(keep);
        assert(d.push(x).filter(keep) == if keep(x) {
            f.push(x)
        } else {
            f
        });
        assert(s.filter(keep) == if keep(s.last()) {
            f.push(s.last())
        } else {
            f
        });
        assert(keep(x) ==> !keep(s[s.len() - 1]));
        assert(s.push(x).filter(keep) == if keep(x) {
            s.filter(keep).push(x)
        } else {
            s.filter(keep)
        });
        assert(s.insert(p, x).filter(keep) == if keep(s.last()) {
            d.insert(p, x).filter(keep).push(s.last())
        } else {
            d.insert(p, x).filter(keep)
        });
    }
}

/// Where a document belongs among the first `n` of a list: behind all that it
/// does not precede.
fn place(keys: &Vec<(String, Json)>, docs: &Vec<Json>, n: usize) -> (p: usize)
    requires
        n < docs@.len(),
    ensures
        p <= n,
        consistent(entry_views(keys@), views(docs@)) && ordered(
            entry_views(keys@),
            views(docs@).take(n as int),
        ) ==> {
            let x = views(docs@)[n as int];
            &&& forall|i: int|
                0 <= i < p ==> doc_order(entry_views(keys@), #[trigger] views(docs@)[i], x) <= 0
            &&& forall|i: int|
                p <= i < n ==> doc_order(entry_views(keys@), #[trigger] views(docs@)[i], x) > 0
        },
{
    let ghost k = entry_views(keys@);
    let ghost s = views(docs@);
    let ghost x = s[n as int];
    let ghost sane = consistent(k, s) && ordered(k, s.take(n as int));
    let mut low: usize = 0;
    let mut high: usize = n;
    while low < high
        invariant
            low <= high <= n < docs@.len(),
            k == entry_views(keys@),
            s == views(docs@),
            x == s[n as int],
            sane == (consistent(k, s) && ordered(k, s.take(n as int))),
            sane ==> forall|i: int| 0 <= i < low ==> doc_order(k, #[trigger] s[i], x) <= 0,
            sane ==> forall|i: int| high <= i < n ==> doc_order(k, #[trigger] s[i], x) > 0,
        decreases high - low,
    {
        let mid: usize = low + (high - low) / 2;
        assert(k.skip(0) == k);
        let c = compare_docs(keys, 0, &docs[mid], &docs[n]);
        proof {
            if sane {
                let m = s[mid as int];
                assert(s.contains(x) && s.contains(m));
                lemma_doc_order_antisymmetric(k, m, x);
                assert forall|i: int| 0 <= i <= mid && c <= 0 implies doc_order(
                    k,
                    #[trigger] s[i],
                    x,
                ) <= 0 by {
                    if i < mid {
                        let t = s.take(n as int);
                        assert(t[i] == s[i] && t[mid as int] == m);
                        assert(doc_order(k, t[i], t[mid as int]) <= 0);
                        assert(s.contains(s[i]));
                    }
                }
                assert forall|i: int| mid <= i < n && c > 0 implies doc_order(
                    k,
                    #[trigger] s[i],
                    x,
                ) > 0 by {
                    if i > mid {
                        let t = s.take(n as int);
                        assert(t[i] == s[i] && t[mid as int] == m);
                        assert(doc_order(k, t[mid as int], t[i]) <= 0);
                        assert(s.contains(s[i]));
                        if doc_order(k, s[i], x) <= 0 {
                            assert(doc_order(k, m, x) <= 0);
                        }
                    }
                }
            }
        }
        if c <= 0 {
            low = mid + 1;
        } else {
            high = mid;
        }
    }
    low
}

/// Puts documents in the order that the entries of a sort object ask for.
pub fn sort_docs(docs: &mut Vec<Json>, sort: &Json)
    ensures
        is_sorting(sort@, views(old(docs)@), views(final(docs)@)),
{
    match sort {
        Json::Object(keys) => {
            let ghost k = entry_views(keys@);
            let ghost before = views(docs@);
            let mut n: usize = 0;
            while n < docs.len()
                invariant
                    n <= docs@.len(),
                    k == entry_views(keys@),
                    views(docs@).to_multiset() == before.to_multiset(),
                    docs@.len() == before.len(),
                    consistent(k, before) ==> ordered(k, views(docs@).take(n as int)),
                    consistent(k, before) ==> keeps_ties(k, before, views(docs@)),
                decreases docs@.len() - n,
            {
                let ghost s = views(docs@);
                let p = place(keys, docs, n);
                let ghost x = s[n as int];
                let d = docs.remove(n);
                docs.insert(p, d);
                let ghost r = views(docs@);
                assert(r == s.remove(n as int).insert(p as int, x));
                proof {
                    broadcast use vstd::seq_lib::group_to_multiset_ensures;

                    assert(s.remove(n as int).insert(n as int, x) == s);
                    assert(r.to_multiset() == s.to_multiset());
                    if consistent(k, before) {
                        lemma_consistent_permuted(k, before, s);
                        assert(ordered(k, r.take(n + 1))) by {
                            lemma_place_ordered(k, s, r, n as int, p as int);
                        }
                        lemma_place_keeps_ties(k, before, s, n as int, p as int);
                    }
                }
                n = n + 1;
            }
            assert(views(docs@).take(n as int) == views(docs@));
        },
        _ => {},
    }
}

proof fn lemma_consistent_permuted(
    k: Seq<(Seq<char>, JsonView)>,
    a: Seq<JsonView>,
    b: Seq<JsonView>,
)
    requires
        consistent(k, a),
        a.to_multiset() == b.to_multiset(),
    ensures
        consistent(k, b),
        forall|x: JsonView| a.contains(x) == #[trigger] b.contains(x),
{
    broadcast use vstd::seq_lib::group_to_multiset_ensures;

    assert forall|x: JsonView| a.contains(x) == #[trigger] b.contains(x) by {
        assert(a.contains(x) <==> a.to_multiset().count(x) > 0);
        assert(b.contains(x) <==> b.to_multiset().count(x) > 0);
    }
}

proof fn lemma_place_ordered(
    k: Seq<(Seq<char>, JsonView)>,
    s: Seq<JsonView>,
    r: Seq<JsonView>,
    n: int,
    p: int,
)
    requires
        0 <= p <= n < s.len(),
        r == s.remove(n).insert(p, s[n]),
        ordered(k, s.take(n)),
        forall|i: int| 0 <= i < p ==> doc_order(k, #[trigger] s[i], s[n]) <= 0,
        forall|i: int| p <= i < n ==> doc_order(k, #[trigger] s[i], s[n]) > 0,
    ensures
        ordered(k, r.take(n + 1)),
{
    let t = r.take(n + 1);
    let q = s.take(n);
    assert forall|i: int, j: int| 0 <= i < j < t.len() implies doc_order(
        k,
        #[trigger] t[i],
        #[trigger] t[j],
    ) <= 0 by {
        let a = if i < p {
            i
        } else {
            i - 1
        };
        let b = if j < p {
            j
        } else {
            j - 1
        };
        assert(i != p ==> t[i] == s[a]);
        assert(j != p ==> t[j] == s[b]);
        if i == p {
            lemma_doc_order_antisymmetric(k, s[b], s[n]);
        } else if j != p {
            assert(q[a] == s[a] && q[b] == s[b]);
        }
    }
}

proof fn lemma_place_keeps_ties(
    k: Seq<(Seq<char>, JsonView)>,
    before: Seq<JsonView>,
    s: Seq<JsonView>,
    n: int,
    p: int,
)
    requires
        0 <= p <= n < s.len(),
        consistent(k, s),
        keeps_ties(k, before, s),
        forall|x: JsonView| before.contains(x) == #[trigger] s.contains(x),
        forall|i: int| p <= i < n ==> doc_order(k, #[trigger] s[i], s[n]) > 0,
    ensures
        keeps_ties(k, before, s.remove(n).insert(p, s[n])),
{
    let x = s[n];
    let r = s.remove(n).insert(p, x);
    assert forall|d: JsonView| before.contains(d) implies #[trigger] ties(k, r, d) == ties(
        k,
        before,
        d,
    ) by {
        let keep = |y: JsonView| doc_order(k, y, d) == 0;
        let head = s.take(n);
        let tail = s.skip(n + 1);
        assert(s.contains(d));
        assert(s.contains(x));
        assert(keep(x) ==> forall|i: int| p <= i < n ==> !keep(#[trigger] head[i])) by {
            if keep(x) {
                assert forall|i: int| p <= i < n implies !keep(#[trigger] head[i]) by {
                    assert(head[i] == s[i]);
                    assert(s.contains(s[i]));
                    lemma_doc_order_antisymmetric(k, x, d);
                    lemma_doc_order_antisymmetric(k, s[i], d);
                    if keep(s[i]) {
                        assert(doc_order(k, s[i], d) <= 0 && doc_order(k, d, x) <= 0);
                        assert(doc_order(k, s[i], x) <= 0);
                    }
                }
            }
        }
        lemma_insert_filter(head, p, x, keep);
        assert(r == head.insert(p, x) + tail);
        assert(s == head.push(x) + tail);
        Seq::filter_distributes_over_add(head.insert(p, x), tail, keep);
        Seq::filter_distributes_over_add(head.push(x), tail, keep);
        assert(ties(k, r, d) == r.filter(keep));
        assert(ties(k, s, d) == s.filter(keep));
    }
}

} // verus!
