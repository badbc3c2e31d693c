//! What the operations on many documents of a collection do, and what a
//! document is made of that is added because none was found.

use crate::changelaws::tells_of;
use crate::collection::{
    batch, bulk, bulk_step, collection_outcome, collection_start, defaulted, equalities, filter_in,
    import_into, lemma_first_where, overlaid, sweep, upserted, BatchView, BulkView, CollectionStepView,
    EffectView, OutcomeView,
};
use crate::filter::{is_operators, selects};
use crate::json::JsonView;
use crate::object::{
    field, has_key, lemma_key_at, lemma_key_at_is, lemma_lookup_with_key, lookup, with_key,
};
use crate::querylaws::{integer, is_simple, lemma_simple_equality};
use crate::select::QueryView;
use crate::text::begins_with;
use crate::update::single_update;
use vstd::prelude::*;

verus! {

/// Whether no key stands twice among the entries of an object.
pub open spec fn keys_differ(o: Seq<(Seq<char>, JsonView)>) -> bool {
    forall|i: int, j: int| 0 <= i < j < o.len() ==> (#[trigger] o[i]).0 != (#[trigger] o[j]).0
}

/// What a filter asks a field to be equal to, if it does: the value that stands
/// under its name and is made of no operators.
pub open spec fn asked_value(o: Seq<(Seq<char>, JsonView)>, k: Seq<char>) -> Option<JsonView> {
    match lookup(o, k) {
        Some(v) => if !is_operators(v) && !(k.len() > 0 && k[0] == '$') {
            Some(v)
        } else {
            None
        },
        None => None,
    }
}

proof fn lemma_equalities(o: Seq<(Seq<char>, JsonView)>, k: Seq<char>)
    requires
        keys_differ(o),
    ensures
        lookup(equalities(o), k) == asked_value(o, k),
    decreases o.len(),
{
    reveal_strlit("$");
    assert("$"@ == seq!['$']);
    lemma_key_at(o, k);
    if o.len() > 0 {
        let d = o.drop_last();
        let n = o.len() - 1;
        assert forall|i: int, j: int| 0 <= i < j < d.len() implies (#[trigger] d[i]).0 != (
        #[trigger] d[j]).0 by {
            assert(o[i].0 != o[j].0);
        }
        lemma_equalities(d, k);
        lemma_key_at(d, k);
        let last = o.last();
        assert(begins_with(last.0, "$"@) == (last.0.len() > 0 && last.0[0] == '$')) by {
            if last.0.len() > 0 {
                assert(last.0.subrange(0, 1)[0] == last.0[0]);
                if last.0[0] == '$' {
                    assert(last.0.subrange(0, 1) == seq!['$']);
                }
            }
        }
        lemma_lookup_with_key(equalities(d), last.0, last.1, k);
        if last.0 == k {
            assert forall|j: int| 0 <= j < n implies (#[trigger] o[j]).0 != k by {
                assert(o[j].0 != o[n].0);
            }
            lemma_key_at_is(o, k, n);
            if has_key(d, k) {
                let i = crate::object::key_at(d, k) as int;
                assert(o[i].0 == k);
            }
        } else {
            if has_key(d, k) {
                let i = crate::object::key_at(d, k) as int;
                assert(o[i].0 == k);
                assert forall|j: int| 0 <= j < i implies (#[trigger] o[j]).0 != k by {
                    assert(d[j].0 != k);
                }
                lemma_key_at_is(o, k, i);
            } else {
                assert forall|j: int| 0 <= j < o.len() implies (#[trigger] o[j]).0 != k by {
                    if j < n {
                        assert(d[j].0 != k);
                    }
                }
                lemma_key_at_is(o, k, o.len() as int);
            }
        }
    }
}

/// Entries laid over others hide those of the same keys; entries laid under
/// others are hidden by them.
pub proof fn lemma_overlaid(
    o: Seq<(Seq<char>, JsonView)>,
    more: Seq<(Seq<char>, JsonView)>,
    k: Seq<char>,
)
    requires
        keys_differ(more),
    ensures
        lookup(overlaid(o, more), k) == match lookup(more, k) {
            Some(v) => Some(v),
            None => lookup(o, k),
        },
        lookup(defaulted(o, more), k) == match lookup(o, k) {
            Some(v) => Some(v),
            None => lookup(more, k),
        },
    decreases more.len(),
{
    lemma_key_at(more, k);
    if more.len() > 0 {
        let d = more.drop_last();
        let n = more.len() - 1;
        let last = more.last();
        assert forall|i: int, j: int| 0 <= i < j < d.len() implies (#[trigger] d[i]).0 != (
        #[trigger] d[j]).0 by {
            assert(more[i].0 != more[j].0);
        }
        lemma_overlaid(o, d, k);
        lemma_overlaid(o, d, last.0);
        lemma_key_at(d, k);
        lemma_lookup_with_key(overlaid(o, d), last.0, last.1, k);
        let head = defaulted(o, d);
        lemma_lookup_with_key(head, last.0, last.1, k);
        if !has_key(head, last.0) {
            assert(with_key(head, last.0, last.1) == head.push(last));
        }
        if last.0 == k {
            assert forall|j: int| 0 <= j < n implies (#[trigger] more[j]).0 != k by {
                assert(more[j].0 != more[n].0);
            }
            lemma_key_at_is(more, k, n);
            if has_key(d, k) {
                let i = crate::object::key_at(d, k) as int;
                assert(more[i].0 == k);
            }
        } else {
            if has_key(d, k) {
                let i = crate::object::key_at(d, k) as int;
                assert forall|j: int| 0 <= j < i implies (#[trigger] more[j]).0 != k by {
                    assert(d[j].0 != k);
                }
                assert(more[i].0 == k);
                lemma_key_at_is(more, k, i);
            } else {
                assert forall|j: int| 0 <= j < more.len() implies (#[trigger] more[j]).0 != k by {
                    if j < n {
                        assert(d[j].0 != k);
                    }
                }
                lemma_key_at_is(more, k, more.len() as int);
            }
        }
    }
}

/// The document that an update adds holds what the filter asks for by equality,
/// and over that what the update says: what `$set` sets, with what `$setOnInsert`
/// lists for the fields that are still missing, or all fields of an update
/// without operators.
pub proof fn lemma_upserted(
    o: Seq<(Seq<char>, JsonView)>,
    l: Seq<char>,
    w: JsonView,
    s: Seq<(Seq<char>, JsonView)>,
    u: Seq<(Seq<char>, JsonView)>,
    k: Seq<char>,
)
    requires
        keys_differ(o),
        keys_differ(s),
        keys_differ(u),
        !l.contains('.'),
    ensures
        field(upserted(JsonView::Object(o), single_update("$set"@, l, w)), k) == (if k == l {
            Some(w)
        } else {
            asked_value(o, k)
        }),
        field(
            upserted(
                JsonView::Object(o),
                JsonView::Object(seq![("$setOnInsert"@, JsonView::Object(s))]),
            ),
            k,
        ) == (match asked_value(o, k) {
            Some(v) => Some(v),
            None => lookup(s, k),
        }),
        !is_operators(JsonView::Object(u)) ==> field(
            upserted(JsonView::Object(o), JsonView::Object(u)),
            k,
        ) == (match lookup(u, k) {
            Some(v) => Some(v),
            None => asked_value(o, k),
        }),
{
    reveal_strlit("$set");
    reveal_strlit("$setOnInsert");
    reveal_strlit("$unset");
    reveal_strlit("$inc");
    reveal_strlit("$mul");
    reveal_strlit("$push");
    reveal_strlit("$pull");
    reveal_strlit("$addToSet");
    reveal_strlit("$rename");
    assert("$set"@.len() == 4);
    assert("$setOnInsert"@.len() == 12);
    assert("$unset"@.len() == 6);
    assert("$inc"@.len() == 4);
    assert("$mul"@.len() == 4);
    assert("$push"@.len() == 5);
    assert("$pull"@.len() == 5);
    assert("$addToSet"@.len() == 9);
    assert("$rename"@.len() == 7);
    assert("$inc"@[1] == 'i');
    assert("$mul"@[1] == 'm');
    assert("$pull"@[3] == 'l');
    assert("$push"@[3] == 's');
    assert("$set"@[1] == 's');
    reveal_strlit("$");
    assert("$"@ == seq!['$']);
    lemma_equalities(o, k);
    let base = JsonView::Object(equalities(o));
    let a = single_update("$set"@, l, w);
    assert(a->Object_0[0].0 == "$set"@);
    assert("$set"@.subrange(0, 1) == seq!['$']);
    assert(is_operators(a));
    lemma_key_at(a->Object_0, "$setOnInsert"@);
    crate::updatelaws::lemma_set_sets(base, l, w, k);
    let e = seq![("$setOnInsert"@, JsonView::Object(s))];
    let b = JsonView::Object(e);
    assert(b->Object_0[0].0 == "$setOnInsert"@);
    assert("$setOnInsert"@.subrange(0, 1) == seq!['$']);
    assert(is_operators(b));
    lemma_key_at_is(e, "$setOnInsert"@, 0);
    lemma_overlaid(equalities(o), s, k);
    let start = JsonView::Object(defaulted(equalities(o), s));
    let known = seq!["$set"@, "$unset"@, "$inc"@, "$mul"@, "$push"@, "$pull"@, "$addToSet"@, "$rename"@];
    assert(!known.contains("$setOnInsert"@)) by {
        assert(known[0] == "$set"@ && known[1] == "$unset"@ && known[2] == "$inc"@);
        assert(known[3] == "$mul"@ && known[4] == "$push"@ && known[5] == "$pull"@);
        assert(known[6] == "$addToSet"@ && known[7] == "$rename"@);
        if known.contains("$setOnInsert"@) {
            let i = choose|i: int| 0 <= i < known.len() && known[i] == "$setOnInsert"@;
            assert(i == 0 || i == 1 || i == 2 || i == 3 || i == 4 || i == 5 || i == 6 || i == 7);
        }
    }
    crate::updatelaws::lemma_unknown_update_changes_nothing("$setOnInsert"@, JsonView::Object(s), start);
    lemma_overlaid(equalities(o), u, k);
}

proof fn lemma_read(o: Seq<(Seq<char>, JsonView)>, i: int, k: Seq<char>)
    requires
        0 <= i < o.len(),
        o[i].0 == k,
        forall|j: int| 0 <= j < i ==> (#[trigger] o[j]).0 != k,
    ensures
        field(JsonView::Object(o), k) == Some(o[i].1),
{
    lemma_key_at_is(o, k, i);
}

proof fn lemma_update_words()
    ensures
        "updateCollection"@ != "insertOne"@,
        "updateCollection"@ != "updateOne"@,
        "updateCollection"@ != "replaceOne"@,
        "updateCollection"@ != "deleteOne"@,
        "updateCollection"@ != "deleteMany"@,
        "updateOne"@ != "insertOne"@,
{
    reveal_strlit("updateCollection");
    reveal_strlit("insertOne");
    reveal_strlit("updateOne");
    reveal_strlit("replaceOne");
    reveal_strlit("deleteOne");
    reveal_strlit("deleteMany");
    assert("updateCollection"@.len() == 16);
    assert("insertOne"@.len() == 9);
    assert("updateOne"@.len() == 9);
    assert("replaceOne"@.len() == 10);
    assert("deleteOne"@.len() == 9);
    assert("deleteMany"@.len() == 10);
    assert("deleteMany"@[0] == 'd');
    assert("deleteOne"@[0] == 'd');
    assert("insertOne"@[0] == 'i');
    assert("replaceOne"@[0] == 'r');
    assert("updateOne"@[0] == 'u');
}

proof fn lemma_sweep(filter: JsonView, update: JsonView, docs: Seq<JsonView>)
    ensures
        ({
            let s = sweep(filter, update, docs);
            &&& s.docs.len() == docs.len()
            &&& s.matched == docs.filter(|d: JsonView| selects(filter, d)).len()
            &&& forall|i: int|
                0 <= i < docs.len() ==> #[trigger] s.docs[i] == (if selects(filter, docs[i]) {
                    crate::collection::changed(update, docs[i]).0
                } else {
                    docs[i]
                })
        }),
    decreases docs.len(),
{
    reveal(Seq::filter);
    if docs.len() > 0 {
        lemma_sweep(filter, update, docs.drop_last());
    }
}

/// An update of a collection makes of every document that the filter selects
/// what an update of that one document makes of it, and leaves the others; it
/// answers how many were selected, saves where one was, and tells of it.
pub proof fn lemma_update_collection(
    db: Seq<char>,
    collection: Seq<char>,
    payload: JsonView,
    docs: Seq<JsonView>,
    filter: JsonView,
    update: JsonView,
    i: int,
)
    requires
        field(payload, "filter"@) == Some(filter),
        field(payload, "update"@) == Some(update),
        field(payload, "data"@) is None,
        field(payload, "documents"@) is None,
        field(payload, "docs"@) is None,
        field(payload, "items"@) is None,
        0 <= i < docs.len() <= u64::MAX,
    ensures
        collection_outcome(db, collection, "updateCollection"@, payload, docs) matches Ok(o) && {
            let n = o.effects.len() as int;
            let found = docs.filter(|d: JsonView| selects(filter, d)).len();
            &&& o.docs.len() == docs.len()
            &&& !selects(filter, docs[i]) ==> o.docs[i] == docs[i]
            &&& selects(filter, docs[i]) ==> (collection_outcome(
                db,
                collection,
                "updateOne"@,
                payload,
                seq![docs[i]],
            ) matches Ok(one) && one.docs == seq![o.docs[i]])
            &&& field(o.result, "acknowledged"@) == Some(JsonView::Bool(true))
            &&& field(o.result, "matchedCount"@) == Some(integer(found as int))
            &&& n > 0 && o.effects[n - 1] is Emit && o.effects[n - 1]->event == "updateCollection"@
            &&& found > 0 ==> n > 1 && o.effects[n - 2] is Save
            &&& found == 0 ==> o.docs == docs && n == 1
        },
{
    lemma_update_words();
    lemma_sweep(filter, update, docs);
    let s = sweep(filter, update, docs);
    reveal_strlit("acknowledged");
    reveal_strlit("matchedCount");
    reveal_strlit("modifiedCount");
    assert("acknowledged"@.len() == 12);
    assert("matchedCount"@.len() == 12);
    assert("modifiedCount"@.len() == 13);
    assert("acknowledged"@[0] == 'a');
    assert("matchedCount"@[0] == 'm');
    let o = collection_outcome(db, collection, "updateCollection"@, payload, docs)->Ok_0;
    lemma_read(o.result->Object_0, 0, "acknowledged"@);
    lemma_read(o.result->Object_0, 1, "matchedCount"@);
    lemma_filter_shorter(docs, |d: JsonView| selects(filter, d));
    if selects(filter, docs[i]) {
        let one = seq![docs[i]];
        lemma_first_where(one, |d: JsonView| selects(filter, d));
        let c = collection_outcome(db, collection, "updateOne"@, payload, one)->Ok_0;
        assert(c.docs == seq![o.docs[i]]);
    }
    if s.matched == 0 {
        lemma_unmatched(filter, update, docs);
    }
}

proof fn lemma_filter_shorter(docs: Seq<JsonView>, p: spec_fn(JsonView) -> bool)
    ensures
        docs.filter(p).len() <= docs.len(),
    decreases docs.len(),
{
    reveal(Seq::filter);
    if docs.len() > 0 {
        lemma_filter_shorter(docs.drop_last(), p);
    }
}

proof fn lemma_unmatched(filter: JsonView, update: JsonView, docs: Seq<JsonView>)
    requires
        sweep(filter, update, docs).matched == 0,
    ensures
        sweep(filter, update, docs).docs == docs,
        sweep(filter, update, docs).effects.len() == 0,
        sweep(filter, update, docs).modified == 0,
    decreases docs.len(),
{
    if docs.len() > 0 {
        lemma_unmatched(filter, update, docs.drop_last());
        assert(docs.drop_last().push(docs.last()) == docs);
    }
}

/// Whether a document has an id that is equal to a simple one.
pub open spec fn has_id(doc: JsonView, id: JsonView) -> bool {
    field(doc, "_id"@) == Some(id)
}

/// A document that is brought along takes the place of the one that has its id,
/// or is added at the end where none has; what is no object is passed over.
pub proof fn lemma_document_is_put(docs: Seq<JsonView>, raw: JsonView, id: JsonView, i: int)
    requires
        is_simple(id),
    ensures
        !(raw is Object) ==> bulk(docs, seq![raw]).docs == docs && bulk(docs, seq![raw]).inserted == 0
            && bulk(docs, seq![raw]).modified == 0,
        raw is Object && has_id(raw, id) && 0 <= i < docs.len() && has_id(docs[i], id) && (forall|
            j: int,
        |
            0 <= j < i ==> !has_id(#[trigger] docs[j], id)) ==> bulk(docs, seq![raw]).docs
            == docs.update(i, raw) && bulk(docs, seq![raw]).inserted == 0 && bulk(
            docs,
            seq![raw],
        ).modified == 1,
        raw is Object && (field(raw, "_id"@) is None || (has_id(raw, id) && forall|j: int|
            0 <= j < docs.len() ==> !has_id(#[trigger] docs[j], id))) ==> bulk(docs, seq![raw]).docs
            == docs.push(raw) && bulk(docs, seq![raw]).inserted == 1 && bulk(
            docs,
            seq![raw],
        ).modified == 0,
{
    let data = seq![raw];
    assert(data.drop_last() == Seq::<JsonView>::empty());
    let start = BulkView { docs, effects: Seq::empty(), inserted: 0, modified: 0 };
    assert(bulk(docs, data.drop_last()) == start);
    assert(bulk(docs, data) == bulk_step(start, raw));
    let p = |d: JsonView| crate::value::alike(field(d, "_id"@), Some(id));
    lemma_first_where(docs, p);
    assert forall|j: int| 0 <= j < docs.len() implies p(#[trigger] docs[j]) == has_id(docs[j], id) by {
        if let Some(x) = field(docs[j], "_id"@) {
            lemma_simple_equality(id, x);
        }
    }
}

/// Documents are put one after the other: those of two lists as if they were
/// one, with the counts added up.
pub proof fn lemma_documents_are_put_in_turn(
    docs: Seq<JsonView>,
    a: Seq<JsonView>,
    b: Seq<JsonView>,
)
    ensures
        bulk(docs, a + b).docs == bulk(bulk(docs, a).docs, b).docs,
        bulk(docs, a + b).inserted == bulk(docs, a).inserted + bulk(bulk(docs, a).docs, b).inserted,
        bulk(docs, a + b).modified == bulk(docs, a).modified + bulk(bulk(docs, a).docs, b).modified,
        bulk(docs, Seq::empty()).docs == docs,
    decreases b.len(),
{
    if b.len() == 0 {
        assert(a + b == a);
    } else {
        lemma_documents_are_put_in_turn(docs, a, b.drop_last());
        assert((a + b).drop_last() == a + b.drop_last());
        assert((a + b).last() == b.last());
    }
}

/// An update of a collection with documents puts them in, answers how many were
/// added and replaced, saves where some were, and tells of it.
pub proof fn lemma_documents_are_brought(
    db: Seq<char>,
    collection: Seq<char>,
    payload: JsonView,
    docs: Seq<JsonView>,
    data: Seq<JsonView>,
)
    requires
        field(payload, "data"@) == Some(JsonView::Array(data)),
        data.len() <= u64::MAX,
    ensures
        collection_outcome(db, collection, "updateCollection"@, payload, docs) matches Ok(o) && {
            let b = bulk(docs, data);
            let n = o.effects.len() as int;
            &&& o.docs == b.docs
            &&& field(o.result, "acknowledged"@) == Some(JsonView::Bool(true))
            &&& field(o.result, "insertedCount"@) == Some(integer(b.inserted as int))
            &&& field(o.result, "modifiedCount"@) == Some(integer(b.modified as int))
            &&& n > 0 && o.effects[n - 1] is Emit && o.effects[n - 1]->event == "updateCollection"@
            &&& b.inserted + b.modified > 0 ==> n > 1 && o.effects[n - 2] is Save
        },
{
    lemma_update_words();
    reveal_strlit("acknowledged");
    reveal_strlit("insertedCount");
    reveal_strlit("modifiedCount");
    assert("acknowledged"@.len() == 12);
    assert("insertedCount"@.len() == 13);
    assert("modifiedCount"@.len() == 13);
    assert("insertedCount"@[0] == 'i');
    assert("modifiedCount"@[0] == 'm');
    let o = collection_outcome(db, collection, "updateCollection"@, payload, docs)->Ok_0;
    lemma_put_counts(docs, data);
    lemma_read(o.result->Object_0, 0, "acknowledged"@);
    lemma_read(o.result->Object_0, 1, "insertedCount"@);
    lemma_read(o.result->Object_0, 2, "modifiedCount"@);
}

proof fn lemma_put_counts(docs: Seq<JsonView>, data: Seq<JsonView>)
    ensures
        bulk(docs, data).inserted + bulk(docs, data).modified <= data.len(),
    decreases data.len(),
{
    if data.len() > 0 {
        lemma_put_counts(docs, data.drop_last());
    }
}

/// A list of one update does what an update of one document does; it is refused
/// where it does not say what to update.
pub proof fn lemma_update_is_listed(
    db: Seq<char>,
    collection: Seq<char>,
    docs: Seq<JsonView>,
    item: JsonView,
)
    ensures
        collection_outcome(db, collection, "updateOne"@, item, docs) matches Ok(o) ==> (batch(
            docs,
            seq![item],
        ) matches Ok(r) && r.docs == o.docs && field(o.result, "matchedCount"@) == Some(
            integer(r.matched as int),
        ) && field(o.result, "modifiedCount"@) == Some(integer(r.modified as int)) && field(
            o.result,
            "upsertedCount"@,
        ) == Some(integer(r.upserted as int))),
        field(item, "update"@) is None ==> batch(docs, seq![item]) is Err,
{
    lemma_update_words();
    let one = seq![item];
    assert(one.drop_last() == Seq::<JsonView>::empty());
    let start = BatchView { docs, effects: Seq::empty(), matched: 0, modified: 0, upserted: 0 };
    assert(batch(docs, one.drop_last()) == Ok::<BatchView, Seq<char>>(start));
    assert(batch(docs, one) == crate::collection::batch_step(start, item));
    if let Ok(o) = collection_outcome(db, collection, "updateOne"@, item, docs) {
        let c = crate::collection::update_first(
            filter_in(item),
            field(item, "update"@)->Some_0,
            crate::collection::upsert_in(item),
            docs,
        );
        crate::changelaws::lemma_counts_read(c);
    }
}

/// Lists of updates are done one after the other, with the counts added up; an
/// error in the first ends it.
pub proof fn lemma_updates_add_up(docs: Seq<JsonView>, a: Seq<JsonView>, b: Seq<JsonView>)
    ensures
        batch(docs, a) is Err ==> batch(docs, a + b) is Err,
        batch(docs, a) matches Ok(x) ==> (match batch(x.docs, b) {
            Ok(y) => batch(docs, a + b) matches Ok(z) && z.docs == y.docs && z.matched == x.matched
                + y.matched && z.modified == x.modified + y.modified && z.upserted == x.upserted
                + y.upserted,
            Err(_) => batch(docs, a + b) is Err,
        }),
    decreases b.len(),
{
    if b.len() == 0 {
        assert(a + b == a);
    } else {
        lemma_updates_add_up(docs, a, b.drop_last());
        assert((a + b).drop_last() == a + b.drop_last());
        assert((a + b).last() == b.last());
    }
}

/// An import in place of all leaves the documents that come in, one that appends
/// adds them behind those that are there, and one that merges puts them in by
/// their ids, which is what happens where nothing is said.  Everything kept of
/// the collection is given up before all its documents are indexed anew.
#[verifier::rlimit(40)]
pub proof fn lemma_import_collection(
    db: Seq<char>,
    collection: Seq<char>,
    payload: JsonView,
    docs: Seq<JsonView>,
    data: Seq<JsonView>,
    mode: Seq<char>,
    i: int,
)
    requires
        field(payload, "data"@) == Some(JsonView::Array(data)),
        forall|j: int| 0 <= j < data.len() ==> (#[trigger] data[j]) is Object,
        data.len() <= u64::MAX,
        field(payload, "mode"@) == Some(JsonView::String(mode)) || (field(payload, "mode"@) is None
            && mode == "merge"@),
        mode == "replace"@ || mode == "append"@ || mode == "merge"@,
    ensures
        collection_outcome(db, collection, "importCollection"@, payload, docs) matches Ok(o) && {
            let n = o.effects.len() as int;
            &&& mode == "replace"@ ==> o.docs == data
            &&& mode == "append"@ ==> o.docs == docs + data
            &&& mode == "merge"@ ==> o.docs == bulk(docs, data).docs
            &&& field(o.result, "acknowledged"@) == Some(JsonView::Bool(true))
            &&& field(o.result, "insertedCount"@) == Some(
                integer(
                    if mode == "merge"@ {
                        bulk(docs, data).inserted as int
                    } else {
                        data.len() as int
                    },
                ),
            )
            &&& field(o.result, "modifiedCount"@) == Some(
                integer(
                    if mode == "merge"@ {
                        bulk(docs, data).modified as int
                    } else {
                        0
                    },
                ),
            )
            &&& n >= 4 + o.docs.len()
            &&& o.effects[0] is DropIndexes
            &&& o.effects[1] is InvalidateDocs
            &&& o.effects[2] is Save
            &&& 0 <= i < o.docs.len() ==> o.effects[3 + i] == (EffectView::Index { doc: o.docs[i] })
            &&& tells_of(
                o.effects[n - 1],
                "importCollection"@,
                db,
                collection,
                JsonView::Null,
                JsonView::Null,
            )
        },
{
    assert(collection_outcome(db, collection, "importCollection"@, payload, docs)
        == crate::collection::import_outcome(db, collection, payload, docs)) by {
        reveal_strlit("importCollection");
        reveal_strlit("exportCollection");
        reveal_strlit("updateCollection");
        reveal_strlit("insertOne");
        reveal_strlit("updateOne");
        reveal_strlit("replaceOne");
        reveal_strlit("deleteOne");
        reveal_strlit("deleteMany");
        assert("importCollection"@.len() == 16);
        assert("exportCollection"@.len() == 16);
        assert("updateCollection"@.len() == 16);
        assert("insertOne"@.len() == 9);
        assert("updateOne"@.len() == 9);
        assert("replaceOne"@.len() == 10);
        assert("deleteOne"@.len() == 9);
        assert("deleteMany"@.len() == 10);
        assert("deleteMany"@[0] == 'd');
        assert("deleteOne"@[0] == 'd');
        assert("exportCollection"@[0] == 'e');
        assert("importCollection"@[0] == 'i');
        assert("insertOne"@[0] == 'i');
        assert("replaceOne"@[0] == 'r');
        assert("updateCollection"@[0] == 'u');
        assert("updateOne"@[0] == 'u');
    }
    assert("merge"@ != "replace"@ && "merge"@ != "append"@ && "replace"@ != "append"@ && mode.len() > 0) by {
        reveal_strlit("merge");
        reveal_strlit("replace");
        reveal_strlit("append");
        assert("merge"@.len() == 5);
        assert("replace"@.len() == 7);
        assert("append"@.len() == 6);
    }
    let o = collection_outcome(db, collection, "importCollection"@, payload, docs)->Ok_0;
    assert(crate::collection::all_objects(data));
    lemma_put_counts(docs, data);
    let m = crate::collection::mode_in(payload, "merge"@);
    assert(m == mode);
    let r = import_into(m, docs, data);
    let entries = crate::collection::import_entries(m, r.1, r.2);
    let e = o.result->Object_0;
    assert(e[0].0 == "acknowledged"@ && e[1] == entries[0] && e[2] == entries[1] && e[3] == entries[2]);
    assert(field(o.result, "acknowledged"@) == Some(e[0].1) && field(o.result, "insertedCount"@) == Some(
        e[2].1,
    ) && field(o.result, "modifiedCount"@) == Some(e[3].1)) by {
        reveal_strlit("acknowledged");
        reveal_strlit("mode");
        reveal_strlit("insertedCount");
        reveal_strlit("modifiedCount");
        assert("acknowledged"@.len() == 12);
        assert("mode"@.len() == 4);
        assert("insertedCount"@.len() == 13);
        assert("modifiedCount"@.len() == 13);
        assert("insertedCount"@[0] == 'i');
        assert("modifiedCount"@[0] == 'm');
        lemma_read(e, 0, "acknowledged"@);
        lemma_read(e, 2, "insertedCount"@);
        lemma_read(e, 3, "modifiedCount"@);
    }
    crate::changelaws::lemma_event_read(
        "importCollection"@,
        db,
        collection,
        JsonView::Null,
        JsonView::Null,
        JsonView::Object(entries),
    );
}

/// What cannot be imported is refused: what is no list, or a list with something
/// else than objects in it, or nothing.
pub proof fn lemma_bad_imports_are_refused(
    db: Seq<char>,
    collection: Seq<char>,
    payload: JsonView,
    docs: Seq<JsonView>,
    i: int,
)
    ensures
        field(payload, "data"@) matches Some(d) && !(d is Array) ==> collection_outcome(
            db,
            collection,
            "importCollection"@,
            payload,
            docs,
        ) == Err::<OutcomeView, Seq<char>>("data must be a JSON array"@),
        field(payload, "data"@) matches Some(JsonView::Array(a)) && 0 <= i < a.len() && !(
        a[i] is Object) ==> collection_outcome(db, collection, "importCollection"@, payload, docs)
            == Err::<OutcomeView, Seq<char>>("All documents must be JSON objects"@),
        field(payload, "data"@) is None && field(payload, "documents"@) is None && field(
            payload,
            "docs"@,
        ) is None && field(payload, "items"@) is None ==> collection_outcome(
            db,
            collection,
            "importCollection"@,
            payload,
            docs,
        ) == Err::<OutcomeView, Seq<char>>("data is required (array of documents)"@),
{
    reveal_strlit("importCollection");
    reveal_strlit("exportCollection");
    reveal_strlit("updateCollection");
    reveal_strlit("insertOne");
    reveal_strlit("updateOne");
    reveal_strlit("replaceOne");
    reveal_strlit("deleteOne");
    reveal_strlit("deleteMany");
    assert("importCollection"@.len() == 16);
    assert("exportCollection"@.len() == 16);
    assert("updateCollection"@.len() == 16);
    assert("insertOne"@.len() == 9);
    assert("updateOne"@.len() == 9);
    assert("replaceOne"@.len() == 10);
    assert("deleteOne"@.len() == 9);
    assert("deleteMany"@.len() == 10);
    assert("deleteMany"@[0] == 'd');
    assert("deleteOne"@[0] == 'd');
    assert("exportCollection"@[0] == 'e');
    assert("importCollection"@[0] == 'i');
    assert("insertOne"@[0] == 'i');
    assert("replaceOne"@[0] == 'r');
    assert("updateCollection"@[0] == 'u');
    assert("updateOne"@[0] == 'u');
}

/// What a payload asks of a query is read where it stands: its filter, sort,
/// projection, limit and skip, in the payload or under its options.
pub proof fn lemma_find_is_understood(
    payload: JsonView,
    collection: Seq<char>,
    options: JsonView,
    limit: u64,
    skip: u64,
)
    requires
        field(payload, "collectionName"@) == Some(JsonView::String(collection)),
        collection.len() > 0,
        collection != "__mdb_placeholder_empty__"@,
        !begins_with(collection, "system."@),
    ensures
        field(payload, "options"@) == Some(options) && field(payload, "sort"@) is None && field(
            payload,
            "projection"@,
        ) is None && field(payload, "limit"@) is None && field(payload, "skip"@) is None && field(
            options,
            "limit"@,
        ) == Some(integer(limit as int)) && field(options, "skip"@) == Some(integer(skip as int))
            ==> collection_start("find"@, payload) == Ok::<(Seq<char>, CollectionStepView), Seq<char>>(
            (
                collection,
                CollectionStepView::Find(
                    QueryView {
                        filter: match field(payload, "filter"@) {
                            Some(f) => f,
                            None => JsonView::Object(Seq::empty()),
                        },
                        sort: field(options, "sort"@),
                        projection: field(options, "projection"@),
                        limit: Some(limit),
                        skip,
                    },
                ),
            ),
        ),
        field(payload, "options"@) is None && field(payload, "limit"@) == Some(
            integer(limit as int),
        ) && field(payload, "skip"@) == Some(integer(skip as int)) ==> collection_start(
            "find"@,
            payload,
        ) == Ok::<(Seq<char>, CollectionStepView), Seq<char>>(
            (
                collection,
                CollectionStepView::Find(
                    QueryView {
                        filter: match field(payload, "filter"@) {
                            Some(f) => f,
                            None => JsonView::Object(Seq::empty()),
                        },
                        sort: field(payload, "sort"@),
                        projection: field(payload, "projection"@),
                        limit: Some(limit),
                        skip,
                    },
                ),
            ),
        ),
        field(payload, "options"@) is None && field(payload, "limit"@) is None && field(
            payload,
            "skip"@,
        ) is None ==> (collection_start("find"@, payload) matches Ok((_, CollectionStepView::Find(q)))
            && q.limit is None && q.skip == 0),
        collection_start("findOne"@, payload) matches Ok((name, CollectionStepView::FindOne(q)))
            && name == collection && q.limit == Some(1u64) && q.skip == 0 && (field(payload, "filter"@)
            matches Some(f) ==> q.filter == f) && (field(payload, "filter"@) is None && field(
            payload,
            "query"@,
        ) is Some ==> q.filter == field(payload, "query"@)->Some_0) && (field(payload, "sort"@) is Some
            ==> q.sort == field(payload, "sort"@)) && (field(payload, "projection"@) is Some
            ==> q.projection == field(payload, "projection"@)),
{
    reveal_strlit("find");
    reveal_strlit("findOne");
    assert("find"@.len() == 4);
    assert("findOne"@.len() == 7);
}

/// An operation on a collection needs the name of one that is not reserved.
pub proof fn lemma_collection_is_named(func: Seq<char>, payload: JsonView, name: Seq<char>)
    requires
        name.len() > 0,
    ensures
        field(payload, "collectionName"@) is None && field(payload, "collection_name"@) is None
            ==> collection_start(func, payload) == Err::<(Seq<char>, CollectionStepView), Seq<char>>(
            "collectionName is required"@,
        ),
        field(payload, "collectionName"@) == Some(JsonView::String(name)) && (name
            == "__mdb_placeholder_empty__"@ || begins_with(name, "system."@)) ==> collection_start(
            func,
            payload,
        ) == Err::<(Seq<char>, CollectionStepView), Seq<char>>(
            "Collection '"@ + name + "' is reserved and cannot be modified"@,
        ),
        field(payload, "collectionName"@) is None && field(payload, "collection_name"@) == Some(
            JsonView::String(name),
        ) ==> (collection_start(func, payload) matches Ok((n, _)) ==> n == name),
        field(payload, "collectionName"@) == Some(JsonView::String(name)) ==> (collection_start(
            func,
            payload,
        ) matches Ok((n, _)) ==> n == name),
{
}

/// Exporting a collection answers all its documents in their order, and changes
/// nothing.
pub proof fn lemma_export_collection(
    db: Seq<char>,
    collection: Seq<char>,
    payload: JsonView,
    docs: Seq<JsonView>,
)
    ensures
        collection_outcome(db, collection, "exportCollection"@, payload, docs) matches Ok(o)
            && o.docs == docs && o.effects.len() == 0 && o.result == JsonView::Array(docs),
{
    reveal_strlit("exportCollection");
    reveal_strlit("updateCollection");
    reveal_strlit("insertOne");
    reveal_strlit("updateOne");
    reveal_strlit("replaceOne");
    reveal_strlit("deleteOne");
    reveal_strlit("deleteMany");
    assert("exportCollection"@.len() == 16);
    assert("updateCollection"@.len() == 16);
    assert("insertOne"@.len() == 9);
    assert("updateOne"@.len() == 9);
    assert("replaceOne"@.len() == 10);
    assert("deleteOne"@.len() == 9);
    assert("deleteMany"@.len() == 10);
    assert("deleteMany"@[0] == 'd');
    assert("deleteOne"@[0] == 'd');
    assert("exportCollection"@[0] == 'e');
    assert("insertOne"@[0] == 'i');
    assert("replaceOne"@[0] == 'r');
    assert("updateCollection"@[0] == 'u');
    assert("updateOne"@[0] == 'u');
}

} // verus!
