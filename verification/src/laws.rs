//! What the operations promise together: what a query finds after a change,
//! what stays as it was, and what clients hear of it.

use crate::client::{action_json, incoming_of, target, IncomingView};
use crate::collection::{
    all_objects, batch, batch_result, batch_step, bulk, bulk_step, caching, caching_all, change_event,
    change_outcome, change_result, changed, collection_outcome, collection_start, count_value, counts_result, data_in,
    delete_many_outcome, delete_one_outcome, deleted_result, filter_in, first_or_null, import_outcome,
    insert_outcome, lemma_first_where, lemma_remaining, match_at, remaining, replace_first, replaced,
    reserved_collection, sweep, uncaching_all, update_collection_outcome, update_first, upsert_in, BatchView,
    ChangeView, CollectionStepView, EffectView, OutcomeView,
};
use crate::database::{
    collection_at, database_reply, database_start, exported, imported_database, incoming_collections, with_docs,
    DatabasePlanView,
};
use crate::filter::{is_operators, selects};
use crate::json::JsonView;
use crate::keys::{doc_id_of, faithful, restored_doc};
use crate::object::{field, json_eq, lookup, well_formed, with_key};
use crate::path::get_path;
use crate::plan::plan_of;
use crate::request::{
    changes_collection, changes_database, count_in, error_of, nonempty_text, reads_collection, reads_database,
    tells_of_change, RequestView,
};
use crate::select::{answers, found_ids, lemma_answers, lemma_matching, matching, present, QueryView};
use crate::server::{
    cached_entry, collection_functions, database_functions, event_value, route_of, stale_patterns, RouteView,
};
use vstd::prelude::*;

verus! {

/// The query for all documents that a filter selects, in their own order.
pub open spec fn plain_query(filter: JsonView) -> QueryView {
    QueryView { filter, sort: None, projection: None, limit: None, skip: 0 }
}

/// The filter for one id.
pub open spec fn by_id(id: JsonView) -> JsonView {
    JsonView::Object(seq![("_id"@, id)])
}

/// A filter for an id selects every document whose id is equal to it.
proof fn lemma_equal_id_selects(doc: JsonView, own: JsonView, id: JsonView)
    requires
        field(doc, "_id"@) == Some(own),
        json_eq(own, id),
    ensures
        selects(by_id(id), doc),
{
    reveal_strlit("_id");
    reveal_strlit("$and");
    reveal_strlit("$or");
    reveal_strlit("$nor");
    reveal_strlit("$not");
    assert("_id"@[0] == '_');
    assert("$and"@[0] == '$');
    assert("$or"@[0] == '$');
    assert("$nor"@[0] == '$');
    assert("$not"@[0] == '$');
    crate::filter::lemma_single("_id"@, id, doc);
    assert(by_id(id) == crate::filter::single("_id"@, id));
    assert(!"_id"@.contains('.'));
    crate::text::lemma_pieces_single("_id"@, '.');
    let path = crate::text::pieces("_id"@, '.');
    assert(path == seq!["_id"@]);
    assert(path.drop_first() == Seq::<Seq<char>>::empty());
    reveal_with_fuel(get_path, 2);
    assert(get_path(doc, path) == Some(own));
}

/// A filter for an id selects every document that has it.
pub proof fn lemma_id_filter_selects(doc: JsonView, id: JsonView)
    requires
        field(doc, "_id"@) == Some(id),
        well_formed(id),
    ensures
        selects(by_id(id), doc),
{
    crate::value::lemma_json_eq_reflexive(id);
    lemma_equal_id_selects(doc, id, id);
}

/// A document that is kept is found by its id: the query for the id looks for
/// the one document that is kept under it, and what was kept, in whatever order
/// its fields are handed out, gives a document equal to it.
pub proof fn lemma_kept_is_found(
    doc: JsonView,
    id: JsonView,
    written: Seq<(Seq<char>, Seq<char>)>,
    read: Seq<(Seq<char>, Seq<char>)>,
    replies: Seq<Seq<Seq<char>>>,
    r: Seq<JsonView>,
)
    requires
        well_formed(doc),
        field(doc, "_id"@) == Some(id),
        !is_operators(id),
        faithful(doc, written),
        read.to_multiset() == written.to_multiset(),
        answers(plain_query(by_id(id)), present(seq![restored_doc(read)]), r),
    ensures
        plan_of(by_id(id)).can_use_redis,
        doc_id_of(doc) is Some,
        found_ids(plan_of(by_id(id)).index_strategy, replies) == seq![doc_id_of(doc)->Some_0],
        caching(doc) == seq![EffectView::CacheDoc { id: doc_id_of(doc)->Some_0, doc }],
        r.len() == 1,
        json_eq(r[0], doc),
{
    let o = doc->Object_0;
    let k = crate::object::key_at(o, "_id"@) as int;
    crate::object::lemma_key_at(o, "_id"@);
    crate::object::lemma_key_at_is(by_id(id)->Object_0, "_id"@, 0);
    crate::keys::lemma_document_reads_back(doc, written, read);
    let d = restored_doc(read)->Some_0;
    crate::value::lemma_json_eq_symmetric(d, doc);
    assert(o[k] == ("_id"@, id));
    let own = field(d, "_id"@)->Some_0;
    assert(json_eq(id, own));
    crate::object::lemma_key_at(d->Object_0, "_id"@);
    crate::value::lemma_json_eq_symmetric(id, own);
    lemma_equal_id_selects(d, own, id);
    let docs = seq![d];
    assert(seq![restored_doc(read)].drop_last() == Seq::<Option<JsonView>>::empty());
    assert(present(Seq::<Option<JsonView>>::empty()) == Seq::<JsonView>::empty());
    assert(present(seq![restored_doc(read)]) == docs);
    lemma_answers(plain_query(by_id(id)), docs, r);
    assert(docs.drop_last() == Seq::<JsonView>::empty());
    assert(matching(by_id(id), Seq::<JsonView>::empty()) == Seq::<JsonView>::empty());
    assert(r == docs);
}

/// An inserted document is found: a query gives it exactly when its filter
/// selects it, and all other documents as before.
pub proof fn lemma_inserted_is_found(
    db: Seq<char>,
    collection: Seq<char>,
    payload: JsonView,
    docs: Seq<JsonView>,
    filter: JsonView,
    r: Seq<JsonView>,
)
    requires
        field(payload, "document"@) is Some,
        insert_outcome(db, collection, payload, docs) is Ok,
        answers(
            plain_query(filter),
            insert_outcome(db, collection, payload, docs)->Ok_0.docs,
            r,
        ),
    ensures
        ({
            let doc = field(payload, "document"@)->Some_0;
            r == (if selects(filter, doc) {
                matching(filter, docs).push(doc)
            } else {
                matching(filter, docs)
            })
        }),
{
    let doc = field(payload, "document"@)->Some_0;
    let new = docs.push(doc);
    lemma_answers(plain_query(filter), new, r);
    assert(new.drop_last() == docs);
    assert(new.last() == doc);
}

/// What was deleted by a filter is not found by it any more, and everything
/// else still is.
pub proof fn lemma_deleted_is_gone(
    db: Seq<char>,
    collection: Seq<char>,
    payload: JsonView,
    docs: Seq<JsonView>,
    filter: JsonView,
    r: Seq<JsonView>,
)
    requires
        answers(
            plain_query(filter),
            delete_many_outcome(db, collection, payload, docs).docs,
            r,
        ),
    ensures
        filter == filter_in(payload) ==> r.len() == 0,
        forall|d: JsonView| #[trigger]
            r.contains(d) <==> docs.contains(d) && selects(filter, d) && !selects(
                filter_in(payload),
                d,
            ),
{
    let left = remaining(filter_in(payload), docs);
    lemma_remaining(filter_in(payload), docs);
    lemma_answers(plain_query(filter), left, r);
    lemma_matching(filter, left);
}

/// Deleting one document takes out the first that the filter selects, and no
/// other.
pub proof fn lemma_delete_one_takes_the_first(
    db: Seq<char>,
    collection: Seq<char>,
    payload: JsonView,
    docs: Seq<JsonView>,
)
    ensures
        ({
            let i = match_at(docs, filter_in(payload)) as int;
            let left = delete_one_outcome(db, collection, payload, docs).docs;
            &&& i < docs.len() ==> selects(filter_in(payload), docs[i]) && left == docs.remove(i)
            &&& i >= docs.len() ==> left == docs && matching(filter_in(payload), docs).len() == 0
            &&& forall|j: int|
                0 <= j < i && j < docs.len() ==> !selects(filter_in(payload), #[trigger] docs[j])
        }),
{
    let f = filter_in(payload);
    lemma_first_where(docs, |d: JsonView| selects(f, d));
    lemma_matching(f, docs);
    if match_at(docs, f) >= docs.len() && matching(f, docs).len() > 0 {
        let d = matching(f, docs)[0];
        assert(matching(f, docs).contains(d));
        let j = choose|j: int| 0 <= j < docs.len() && docs[j] == d;
        assert(!selects(f, docs[j]));
    }
}

/// An update or a replacement touches the first document that the filter
/// selects, and no other; where none is selected and none may be added, nothing
/// changes, and nobody hears of it.
pub proof fn lemma_change_touches_one(
    db: Seq<char>,
    collection: Seq<char>,
    event: Seq<char>,
    filter: JsonView,
    new: JsonView,
    upsert: bool,
    docs: Seq<JsonView>,
    i: int,
)
    requires
        0 <= i < docs.len(),
        i != match_at(docs, filter),
    ensures
        update_first(filter, new, upsert, docs).docs[i] == docs[i],
        replace_first(filter, new, upsert, docs).docs[i] == docs[i],
        match_at(docs, filter) < docs.len() || !upsert ==> update_first(
            filter,
            new,
            upsert,
            docs,
        ).docs.len() == docs.len() && replace_first(filter, new, upsert, docs).docs.len()
            == docs.len(),
        match_at(docs, filter) >= docs.len() && !upsert ==> update_first(
            filter,
            new,
            upsert,
            docs,
        ).docs == docs && change_outcome(
            db,
            collection,
            event,
            update_first(filter, new, upsert, docs),
        ).effects.len() == 0,
{
}

/// After a replacement of a document, the new one is found under the id of the
/// old one, with all its own fields.
pub proof fn lemma_replacement_is_found(
    filter: JsonView,
    new: JsonView,
    upsert: bool,
    docs: Seq<JsonView>,
    key: Seq<char>,
)
    requires
        match_at(docs, filter) < docs.len(),
        new is Object,
        field(docs[match_at(docs, filter) as int], "_id"@) is Some,
        well_formed(field(docs[match_at(docs, filter) as int], "_id"@)->Some_0),
    ensures
        ({
            let i = match_at(docs, filter) as int;
            let id = field(docs[i], "_id"@)->Some_0;
            let after = replace_first(filter, new, upsert, docs).docs;
            &&& selects(by_id(id), after[i])
            &&& field(after[i], "_id"@) == Some(id)
            &&& key != "_id"@ ==> field(after[i], key) == field(new, key)
        }),
{
    let i = match_at(docs, filter) as int;
    let id = field(docs[i], "_id"@)->Some_0;
    crate::collection::lemma_replaced_keeps_id(new, docs[i]);
    lemma_id_filter_selects(replaced(new, docs[i]), id);
    if key != "_id"@ {
        crate::object::lemma_lookup_with_key(new->Object_0, "_id"@, id, key);
    }
}

/// Whether documents are to be saved.
pub open spec fn saves(effects: Seq<EffectView>) -> bool {
    exists|i: int| 0 <= i < effects.len() && (#[trigger] effects[i]) is Save
}

/// Whether the last thing to be done is to tell of an event.
pub open spec fn tells(effects: Seq<EffectView>, event: Seq<char>) -> bool {
    effects.len() > 0 && effects.last() is Emit && effects.last()->event == event
}

/// Effects that neither save nor tell.
pub open spec fn is_quiet(effects: Seq<EffectView>) -> bool {
    forall|i: int| 0 <= i < effects.len() ==> !((#[trigger] effects[i]) is Save) && !(
    effects[i] is Emit)
}

proof fn lemma_quiet_sum(a: Seq<EffectView>, b: Seq<EffectView>)
    requires
        is_quiet(a),
        is_quiet(b),
    ensures
        is_quiet(a + b),
{
}

proof fn lemma_caching_quiet(docs: Seq<JsonView>)
    ensures
        is_quiet(caching_all(docs)),
        is_quiet(uncaching_all(docs)),
    decreases docs.len(),
{
    if docs.len() > 0 {
        lemma_caching_quiet(docs.drop_last());
        lemma_quiet_sum(caching_all(docs.drop_last()), caching(docs.last()));
    }
}

proof fn lemma_change_quiet(
    filter: JsonView,
    new: JsonView,
    upsert: bool,
    docs: Seq<JsonView>,
)
    ensures
        is_quiet(update_first(filter, new, upsert, docs).effects),
        is_quiet(replace_first(filter, new, upsert, docs).effects),
{
}

proof fn lemma_change_told(
    db: Seq<char>,
    collection: Seq<char>,
    event: Seq<char>,
    c: ChangeView,
)
    requires
        is_quiet(c.effects),
        saves(change_outcome(db, collection, event, c).effects),
    ensures
        tells(change_outcome(db, collection, event, c).effects, event),
{
}

proof fn lemma_delete_told(
    db: Seq<char>,
    collection: Seq<char>,
    payload: JsonView,
    docs: Seq<JsonView>,
)
    ensures
        saves(delete_many_outcome(db, collection, payload, docs).effects) ==> tells(
            delete_many_outcome(db, collection, payload, docs).effects,
            "deleteMany"@,
        ),
        saves(delete_one_outcome(db, collection, payload, docs).effects) ==> tells(
            delete_one_outcome(db, collection, payload, docs).effects,
            "deleteOne"@,
        ),
{
    let gone = matching(filter_in(payload), docs);
    lemma_caching_quiet(gone);
    let a = crate::collection::unindexing_all(gone);
    assert(is_quiet(a));
    lemma_quiet_sum(a, uncaching_all(gone));
    if gone.len() == 0 {
        assert(delete_many_outcome(db, collection, payload, docs).effects == a + uncaching_all(
            gone,
        ));
    }
}

proof fn lemma_insert_told(
    db: Seq<char>,
    collection: Seq<char>,
    payload: JsonView,
    docs: Seq<JsonView>,
)
    ensures
        insert_outcome(db, collection, payload, docs) matches Ok(o) ==> tells(
            o.effects,
            "insertOne"@,
        ),
{
}

proof fn lemma_many_told(
    db: Seq<char>,
    collection: Seq<char>,
    payload: JsonView,
    docs: Seq<JsonView>,
)
    ensures
        update_collection_outcome(db, collection, payload, docs) matches Ok(o) ==> tells(
            o.effects,
            "updateCollection"@,
        ),
{
}

proof fn lemma_import_told(
    db: Seq<char>,
    collection: Seq<char>,
    payload: JsonView,
    docs: Seq<JsonView>,
)
    ensures
        import_outcome(db, collection, payload, docs) matches Ok(o) ==> tells(
            o.effects,
            "importCollection"@,
        ),
{
}

/// Every change to a collection that is saved is told of: the last thing to be
/// done is to tell clients of an event with the name of the operation.
pub proof fn lemma_saved_is_told(
    db: Seq<char>,
    collection: Seq<char>,
    func: Seq<char>,
    payload: JsonView,
    docs: Seq<JsonView>,
)
    requires
        collection_outcome(db, collection, func, payload, docs) is Ok,
        saves(collection_outcome(db, collection, func, payload, docs)->Ok_0.effects),
    ensures
        tells(collection_outcome(db, collection, func, payload, docs)->Ok_0.effects, func),
{
    let filter = filter_in(payload);
    let upsert = upsert_in(payload);
    if func == "insertOne"@ {
        lemma_insert_told(db, collection, payload, docs);
    } else if func == "updateOne"@ {
        let update = field(payload, "update"@)->Some_0;
        lemma_change_quiet(filter, update, upsert, docs);
        lemma_change_told(db, collection, func, update_first(filter, update, upsert, docs));
    } else if func == "replaceOne"@ {
        let new = field(payload, "replacement"@)->Some_0;
        lemma_change_quiet(filter, new, upsert, docs);
        lemma_change_told(db, collection, func, replace_first(filter, new, upsert, docs));
    } else if func == "deleteOne"@ || func == "deleteMany"@ {
        lemma_delete_told(db, collection, payload, docs);
    } else if func == "updateCollection"@ {
        lemma_many_told(db, collection, payload, docs);
    } else if func == "importCollection"@ {
        lemma_import_told(db, collection, payload, docs);
    }
}

proof fn lemma_count_words()
    ensures
        "acknowledged"@ != "matchedCount"@,
        "acknowledged"@ != "modifiedCount"@,
        "acknowledged"@ != "upsertedCount"@,
        "acknowledged"@ != "insertedCount"@,
        "acknowledged"@ != "deletedCount"@,
        "matchedCount"@ != "modifiedCount"@,
        "matchedCount"@ != "upsertedCount"@,
        "modifiedCount"@ != "upsertedCount"@,
        "insertedCount"@ != "modifiedCount"@,
{
    reveal_strlit("acknowledged");
    reveal_strlit("matchedCount");
    reveal_strlit("modifiedCount");
    reveal_strlit("upsertedCount");
    reveal_strlit("insertedCount");
    reveal_strlit("deletedCount");
    assert("acknowledged"@[0] == 'a');
    assert("matchedCount"@[0] == 'm' && "matchedCount"@.len() == 12);
    assert("modifiedCount"@[0] == 'm' && "modifiedCount"@.len() == 13);
    assert("upsertedCount"@[0] == 'u');
    assert("insertedCount"@[0] == 'i');
    assert("deletedCount"@[0] == 'd');
}

/// A count is read from where it stands.
proof fn lemma_count_at(o: Seq<(Seq<char>, JsonView)>, i: int, key: Seq<char>, n: nat)
    requires
        0 <= i < o.len(),
        o[i] == (key, count_value(n)),
        forall|j: int| 0 <= j < i ==> (#[trigger] o[j]).0 != key,
        n <= i64::MAX,
    ensures
        count_in(Some(JsonView::Object(o)), key) == n,
{
    crate::object::lemma_key_at_is(o, key, i);
}

proof fn lemma_change_indicated(c: ChangeView, func: Seq<char>)
    requires
        c.modified <= 1,
        c.upserted <= 1,
        c.modified > 0 || c.upserted > 0,
        func == "updateOne"@ || func == "replaceOne"@,
    ensures
        tells_of_change("collection"@, func, Some(change_result(c))),
{
    lemma_count_words();
    let o = change_result(c)->Object_0;
    lemma_count_at(o, 2, "modifiedCount"@, c.modified as nat);
    lemma_count_at(o, 3, "upsertedCount"@, c.upserted as nat);
}

proof fn lemma_delete_indicated(n: nat, func: Seq<char>)
    requires
        0 < n <= i64::MAX,
        func == "deleteOne"@ || func == "deleteMany"@,
    ensures
        tells_of_change("collection"@, func, Some(deleted_result(n))),
{
    lemma_count_words();
    reveal_strlit("updateOne");
    reveal_strlit("replaceOne");
    reveal_strlit("deleteOne");
    reveal_strlit("deleteMany");
    assert("updateOne"@[0] == 'u' && "replaceOne"@[0] == 'r');
    assert("deleteOne"@[0] == 'd' && "deleteMany"@[0] == 'd');
    lemma_count_at(deleted_result(n)->Object_0, 1, "deletedCount"@, n);
}

proof fn lemma_update_collection_word()
    ensures
        "updateCollection"@ != "updateOne"@,
        "updateCollection"@ != "replaceOne"@,
        "updateCollection"@ != "deleteOne"@,
        "updateCollection"@ != "deleteMany"@,
{
    reveal_strlit("updateCollection");
    reveal_strlit("updateOne");
    reveal_strlit("replaceOne");
    reveal_strlit("deleteOne");
    reveal_strlit("deleteMany");
    assert("updateCollection"@.len() == 16);
    assert("updateOne"@.len() == 9 && "replaceOne"@.len() == 10);
    assert("deleteOne"@.len() == 9 && "deleteMany"@.len() == 10);
}

proof fn lemma_counts_indicated(first: Seq<char>, a: nat, b: nat)
    requires
        a <= i64::MAX,
        b <= i64::MAX,
        a > 0 || b > 0,
        first == "insertedCount"@ || first == "matchedCount"@,
    ensures
        tells_of_change(
            "collection"@,
            "updateCollection"@,
            Some(counts_result(first, a, "modifiedCount"@, b)),
        ),
{
    lemma_count_words();
    lemma_update_collection_word();
    let o = counts_result(first, a, "modifiedCount"@, b)->Object_0;
    lemma_count_at(o, 1, first, a);
    lemma_count_at(o, 2, "modifiedCount"@, b);
}

proof fn lemma_batch_indicated(b: BatchView)
    requires
        b.matched <= i64::MAX,
        b.upserted <= i64::MAX,
        b.matched > 0 || b.upserted > 0,
    ensures
        tells_of_change("collection"@, "updateCollection"@, Some(batch_result(b))),
{
    lemma_count_words();
    lemma_update_collection_word();
    let o = batch_result(b)->Object_0;
    lemma_count_at(o, 1, "matchedCount"@, b.matched);
    lemma_count_at(o, 3, "upsertedCount"@, b.upserted);
}

proof fn lemma_bulk_counts(docs: Seq<JsonView>, data: Seq<JsonView>)
    ensures
        bulk(docs, data).inserted + bulk(docs, data).modified <= data.len(),
        bulk(docs, data).inserted + bulk(docs, data).modified == 0 ==> bulk(docs, data).docs == docs,
    decreases data.len(),
{
    if data.len() > 0 {
        lemma_bulk_counts(docs, data.drop_last());
        assert(bulk(docs, data) == bulk_step(bulk(docs, data.drop_last()), data.last()));
    }
}

proof fn lemma_sweep_counts(filter: JsonView, update: JsonView, docs: Seq<JsonView>)
    ensures
        sweep(filter, update, docs).modified <= sweep(filter, update, docs).matched <= docs.len(),
        sweep(filter, update, docs).matched == 0 ==> sweep(filter, update, docs).docs == docs,
    decreases docs.len(),
{
    if docs.len() > 0 {
        lemma_sweep_counts(filter, update, docs.drop_last());
        assert(docs.drop_last().push(docs.last()) == docs);
    }
}

proof fn lemma_batch_counts(docs: Seq<JsonView>, updates: Seq<JsonView>)
    requires
        batch(docs, updates) is Ok,
    ensures
        batch(docs, updates)->Ok_0.matched <= updates.len(),
        batch(docs, updates)->Ok_0.upserted <= updates.len(),
        batch(docs, updates)->Ok_0.matched == 0 && batch(docs, updates)->Ok_0.upserted == 0 ==> batch(
            docs,
            updates,
        )->Ok_0.docs == docs,
    decreases updates.len(),
{
    if updates.len() > 0 {
        lemma_batch_counts(docs, updates.drop_last());
        let b = batch(docs, updates.drop_last())->Ok_0;
        assert(batch(docs, updates) == batch_step(b, updates.last()));
    }
}

/// What is told of a change to many documents, and that it is saved.
proof fn lemma_many_indicated(
    db: Seq<char>,
    collection: Seq<char>,
    payload: JsonView,
    docs: Seq<JsonView>,
)
    requires
        update_collection_outcome(db, collection, payload, docs) is Ok,
        update_collection_outcome(db, collection, payload, docs)->Ok_0.docs != docs,
        docs.len() <= i64::MAX,
        data_in(payload) matches Some(JsonView::Array(a)) ==> a.len() <= i64::MAX,
        field(payload, "updates"@) matches Some(JsonView::Array(a)) ==> a.len() <= i64::MAX,
    ensures
        saves(update_collection_outcome(db, collection, payload, docs)->Ok_0.effects),
        tells_of_change(
            "collection"@,
            "updateCollection"@,
            Some(update_collection_outcome(db, collection, payload, docs)->Ok_0.result),
        ),
{
    let o = update_collection_outcome(db, collection, payload, docs)->Ok_0;
    match data_in(payload) {
        Some(JsonView::Array(data)) => {
            lemma_bulk_counts(docs, data);
            let b = bulk(docs, data);
            lemma_counts_indicated("insertedCount"@, b.inserted, b.modified);
            assert(o.effects[b.effects.len() as int] is Save);
        },
        _ => match field(payload, "update"@) {
            Some(update) => {
                let s = sweep(filter_in(payload), update, docs);
                lemma_sweep_counts(filter_in(payload), update, docs);
                lemma_counts_indicated("matchedCount"@, s.matched, s.modified);
                assert(o.effects[s.effects.len() as int] is Save);
            },
            None => {
                let updates = field(payload, "updates"@)->Some_0->Array_0;
                lemma_batch_counts(docs, updates);
                let b = batch(docs, updates)->Ok_0;
                lemma_batch_indicated(b);
                assert(o.effects[b.effects.len() as int] is Save);
            },
        },
    }
}

proof fn lemma_one_indicated(
    db: Seq<char>,
    collection: Seq<char>,
    func: Seq<char>,
    c: ChangeView,
)
    requires
        c.modified <= 1,
        c.upserted <= 1,
        c.matched > 0 || c.upserted > 0,
        c.modified > 0 || c.upserted > 0,
        func == "updateOne"@ || func == "replaceOne"@,
    ensures
        saves(change_outcome(db, collection, func, c).effects),
        tells_of_change("collection"@, func, Some(change_outcome(db, collection, func, c).result)),
{
    lemma_change_indicated(c, func);
    assert(change_outcome(db, collection, func, c).effects[c.effects.len() as int] is Save);
}

proof fn lemma_removal_indicated(
    db: Seq<char>,
    collection: Seq<char>,
    payload: JsonView,
    docs: Seq<JsonView>,
)
    requires
        docs.len() <= i64::MAX,
    ensures
        ({
            let o = delete_many_outcome(db, collection, payload, docs);
            o.docs != docs ==> saves(o.effects) && tells_of_change(
                "collection"@,
                "deleteMany"@,
                Some(o.result),
            )
        }),
        ({
            let o = delete_one_outcome(db, collection, payload, docs);
            o.docs != docs ==> saves(o.effects) && tells_of_change(
                "collection"@,
                "deleteOne"@,
                Some(o.result),
            )
        }),
{
    let f = filter_in(payload);
    let gone = matching(f, docs);
    lemma_matching(f, docs);
    let many = delete_many_outcome(db, collection, payload, docs);
    if gone.len() > 0 {
        lemma_delete_indicated(gone.len(), "deleteMany"@);
        let quiet = crate::collection::unindexing_all(gone) + uncaching_all(gone);
        assert(many.effects[quiet.len() as int] is Save);
    } else {
        lemma_none_remain(f, docs);
    }
    let one = delete_one_outcome(db, collection, payload, docs);
    let i = match_at(docs, f) as int;
    if i < docs.len() {
        lemma_delete_indicated(1, "deleteOne"@);
        let quiet = seq![EffectView::Unindex { doc: docs[i] }] + uncaching_all(seq![docs[i]]);
        assert(one.effects[quiet.len() as int] is Save);
    }
}

proof fn lemma_none_remain(filter: JsonView, docs: Seq<JsonView>)
    requires
        matching(filter, docs).len() == 0,
    ensures
        remaining(filter, docs) == docs,
    decreases docs.len(),
{
    if docs.len() > 0 {
        lemma_none_remain(filter, docs.drop_last());
        assert(docs.drop_last().push(docs.last()) == docs);
    }
}

proof fn lemma_insert_indicated()
    ensures
        forall|v: Option<JsonView>| #[trigger] tells_of_change("collection"@, "insertOne"@, v),
        forall|v: Option<JsonView>| #[trigger] tells_of_change("collection"@, "importCollection"@, v),
{
    reveal_strlit("insertOne");
    reveal_strlit("importCollection");
    reveal_strlit("updateOne");
    reveal_strlit("replaceOne");
    reveal_strlit("deleteOne");
    reveal_strlit("deleteMany");
    reveal_strlit("updateCollection");
    reveal_strlit("collection");
    reveal_strlit("database");
    assert("insertOne"@[0] == 'i' && "importCollection"@[0] == 'i');
    assert("updateOne"@[0] == 'u' && "replaceOne"@[0] == 'r' && "updateCollection"@[0] == 'u');
    assert("deleteOne"@[0] == 'd' && "deleteMany"@[0] == 'd');
    assert("collection"@[0] == 'c' && "database"@[0] == 'd');
}

/// Whether an outcome is saved and its result tells of a change.
#[verifier::opaque]
spec fn is_heard(o: OutcomeView, func: Seq<char>) -> bool {
    saves(o.effects) && tells_of_change("collection"@, func, Some(o.result))
}

proof fn lemma_update_heard(
    db: Seq<char>,
    collection: Seq<char>,
    filter: JsonView,
    update: JsonView,
    upsert: bool,
    docs: Seq<JsonView>,
)
    requires
        crate::update::adds_something(update),
        update_first(filter, update, upsert, docs).docs != docs,
    ensures
        is_heard(
            change_outcome(
                db,
                collection,
                "updateOne"@,
                update_first(filter, update, upsert, docs),
            ),
            "updateOne"@,
        ),
{
    reveal(is_heard);
    let c = update_first(filter, update, upsert, docs);
    let i = match_at(docs, filter) as int;
    if i < docs.len() && c.modified == 0 {
        crate::update::lemma_unmodified_unchanged(update, docs[i]);
        assert(changed(update, docs[i]).0 == docs[i]);
        assert(docs.update(i, docs[i]) == docs);
    }
    lemma_one_indicated(db, collection, "updateOne"@, c);
}

proof fn lemma_replace_heard(
    db: Seq<char>,
    collection: Seq<char>,
    filter: JsonView,
    new: JsonView,
    upsert: bool,
    docs: Seq<JsonView>,
)
    requires
        replace_first(filter, new, upsert, docs).docs != docs,
    ensures
        is_heard(
            change_outcome(
                db,
                collection,
                "replaceOne"@,
                replace_first(filter, new, upsert, docs),
            ),
            "replaceOne"@,
        ),
{
    reveal(is_heard);
    lemma_one_indicated(
        db,
        collection,
        "replaceOne"@,
        replace_first(filter, new, upsert, docs),
    );
}

proof fn lemma_insert_heard(
    db: Seq<char>,
    collection: Seq<char>,
    payload: JsonView,
    docs: Seq<JsonView>,
)
    ensures
        insert_outcome(db, collection, payload, docs) matches Ok(o) ==> is_heard(
            o,
            "insertOne"@,
        ),
        import_outcome(db, collection, payload, docs) matches Ok(o) ==> is_heard(
            o,
            "importCollection"@,
        ),
{
    reveal(is_heard);
    lemma_insert_indicated();
    if insert_outcome(db, collection, payload, docs) is Ok {
        assert(insert_outcome(db, collection, payload, docs)->Ok_0.effects[0] is Save);
    }
    if import_outcome(db, collection, payload, docs) is Ok {
        assert(import_outcome(db, collection, payload, docs)->Ok_0.effects[2] is Save);
    }
}

proof fn lemma_many_heard(
    db: Seq<char>,
    collection: Seq<char>,
    payload: JsonView,
    docs: Seq<JsonView>,
)
    requires
        docs.len() <= i64::MAX,
        data_in(payload) matches Some(JsonView::Array(a)) ==> a.len() <= i64::MAX,
        field(payload, "updates"@) matches Some(JsonView::Array(a)) ==> a.len() <= i64::MAX,
    ensures
        update_collection_outcome(db, collection, payload, docs) matches Ok(o) ==> o.docs != docs
            ==> is_heard(o, "updateCollection"@),
        delete_many_outcome(db, collection, payload, docs).docs != docs ==> is_heard(
            delete_many_outcome(db, collection, payload, docs),
            "deleteMany"@,
        ),
        delete_one_outcome(db, collection, payload, docs).docs != docs ==> is_heard(
            delete_one_outcome(db, collection, payload, docs),
            "deleteOne"@,
        ),
{
    reveal(is_heard);
    lemma_removal_indicated(db, collection, payload, docs);
    if update_collection_outcome(db, collection, payload, docs) is Ok
        && update_collection_outcome(db, collection, payload, docs)->Ok_0.docs != docs {
        lemma_many_indicated(db, collection, payload, docs);
    }
}

/// An operation that leaves other documents than it found is heard of.
proof fn lemma_outcome_heard(
    db: Seq<char>,
    collection: Seq<char>,
    func: Seq<char>,
    payload: JsonView,
    docs: Seq<JsonView>,
)
    requires
        collection_outcome(db, collection, func, payload, docs) is Ok,
        collection_outcome(db, collection, func, payload, docs)->Ok_0.docs != docs,
        func == "updateOne"@ ==> crate::update::adds_something(field(payload, "update"@)->Some_0),
        docs.len() <= i64::MAX,
        data_in(payload) matches Some(JsonView::Array(a)) ==> a.len() <= i64::MAX,
        field(payload, "updates"@) matches Some(JsonView::Array(a)) ==> a.len() <= i64::MAX,
    ensures
        is_heard(collection_outcome(db, collection, func, payload, docs)->Ok_0, func),
{
    let filter = filter_in(payload);
    let upsert = upsert_in(payload);
    let o = collection_outcome(db, collection, func, payload, docs)->Ok_0;
    if func == "insertOne"@ {
        assert(is_heard(o, func)) by {
            lemma_insert_heard(db, collection, payload, docs);
        }
    } else if func == "updateOne"@ {
        let update = field(payload, "update"@)->Some_0;
        assert(is_heard(o, func)) by {
            lemma_update_heard(db, collection, filter, update, upsert, docs);
        }
    } else if func == "replaceOne"@ {
        let new = field(payload, "replacement"@)->Some_0;
        assert(is_heard(o, func)) by {
            lemma_replace_heard(db, collection, filter, new, upsert, docs);
        }
    } else if func == "deleteOne"@ || func == "deleteMany"@ || func == "updateCollection"@ {
        assert(is_heard(o, func)) by {
            lemma_many_heard(db, collection, payload, docs);
        }
    } else if func != "exportCollection"@ {
        assert(is_heard(o, func)) by {
            lemma_insert_heard(db, collection, payload, docs);
        }
    }
}

/// Every change to the documents of a collection is saved, and its result tells
/// of it, so that cached responses about its database are given up.  An update
/// by `$addToSet` that is asked to add nothing may make an empty array and not
/// tell of it.
pub proof fn lemma_change_is_saved_and_indicated(
    db: Seq<char>,
    collection: Seq<char>,
    func: Seq<char>,
    payload: JsonView,
    docs: Seq<JsonView>,
)
    requires
        collection_outcome(db, collection, func, payload, docs) is Ok,
        collection_outcome(db, collection, func, payload, docs)->Ok_0.docs != docs,
        func == "updateOne"@ ==> crate::update::adds_something(field(payload, "update"@)->Some_0),
        docs.len() <= i64::MAX,
        data_in(payload) matches Some(JsonView::Array(a)) ==> a.len() <= i64::MAX,
        field(payload, "updates"@) matches Some(JsonView::Array(a)) ==> a.len() <= i64::MAX,
    ensures
        saves(collection_outcome(db, collection, func, payload, docs)->Ok_0.effects),
        tells_of_change(
            "collection"@,
            func,
            Some(collection_outcome(db, collection, func, payload, docs)->Ok_0.result),
        ),
{
    lemma_outcome_heard(db, collection, func, payload, docs);
    assert(is_heard(collection_outcome(db, collection, func, payload, docs)->Ok_0, func));
    reveal(is_heard);
}

/// A collection that is exported and imported again in place of whatever is
/// there is the one that was exported, whatever was there.
pub proof fn lemma_export_then_import(
    db: Seq<char>,
    collection: Seq<char>,
    payload: JsonView,
    docs: Seq<JsonView>,
    other: Seq<JsonView>,
)
    requires
        all_objects(docs),
        field(payload, "data"@) == Some(
            collection_outcome(
                db,
                collection,
                "exportCollection"@,
                JsonView::Null,
                docs,
            )->Ok_0.result,
        ),
        nonempty_text(payload, "mode"@) == Some("replace"@),
    ensures
        collection_outcome(db, collection, "importCollection"@, payload, other) is Ok,
        collection_outcome(db, collection, "importCollection"@, payload, other)->Ok_0.docs == docs,
        collection_outcome(db, collection, "exportCollection"@, JsonView::Null, docs)->Ok_0.docs
            == docs,
        collection_outcome(
            db,
            collection,
            "exportCollection"@,
            JsonView::Null,
            docs,
        )->Ok_0.effects.len() == 0,
{
    reveal_strlit("insertOne");
    reveal_strlit("updateOne");
    reveal_strlit("replaceOne");
    reveal_strlit("deleteOne");
    reveal_strlit("deleteMany");
    reveal_strlit("updateCollection");
    reveal_strlit("exportCollection");
    reveal_strlit("importCollection");
    assert("exportCollection"@[0] == 'e');
    assert("importCollection"@[1] == 'm');
    assert("insertOne"@[1] == 'n');
    assert("updateOne"@[0] == 'u');
    assert("replaceOne"@[0] == 'r');
    assert("deleteOne"@[0] == 'd');
    assert("deleteMany"@[0] == 'd');
    assert("updateCollection"@[0] == 'u');
}

/// Whether the collections of a database have names of their own that are not
/// reserved, and hold documents.
pub open spec fn is_ordinary(db: Seq<(Seq<char>, Seq<JsonView>)>) -> bool {
    &&& crate::database::distinct_names(db)
    &&& forall|i: int|
        0 <= i < db.len() ==> !reserved_collection((#[trigger] db[i]).0) && all_objects(db[i].1)
}

proof fn lemma_exported(db: Seq<(Seq<char>, Seq<JsonView>)>)
    requires
        is_ordinary(db),
    ensures
        exported(db).len() == db.len(),
        forall|i: int|
            0 <= i < db.len() ==> #[trigger] exported(db)[i] == (db[i].0, JsonView::Array(db[i].1)),
        incoming_collections(exported(db)) == Ok::<Seq<(Seq<char>, Seq<JsonView>)>, Seq<char>>(db),
    decreases db.len(),
{
    if db.len() == 0 {
        assert(incoming_collections(exported(db))->Ok_0 == db);
    } else {
        let rest = db.drop_last();
        let last = db.last();
        assert(db[db.len() - 1] == last);
        assert(is_ordinary(rest)) by {
            assert forall|i: int| 0 <= i < rest.len() implies !reserved_collection(
                (#[trigger] rest[i]).0,
            ) && all_objects(rest[i].1) by {
                assert(rest[i] == db[i]);
            }
            assert forall|i: int, j: int| 0 <= i < j < rest.len() implies (#[trigger] rest[i]).0 != (
            #[trigger] rest[j]).0 by {
                assert(rest[i] == db[i] && rest[j] == db[j]);
            }
        }
        lemma_exported(rest);
        let head = exported(rest);
        assert forall|i: int| 0 <= i < head.len() implies (#[trigger] head[i]).0 != last.0 by {
            assert(rest[i] == db[i]);
            assert(db[i].0 != db[db.len() - 1].0);
        }
        crate::object::lemma_key_at_is(head, last.0, head.len() as int);
        let all = exported(db);
        assert(all == head.push((last.0, JsonView::Array(last.1))));
        assert forall|i: int| 0 <= i < db.len() implies #[trigger] all[i] == (
            db[i].0,
            JsonView::Array(db[i].1),
        ) by {
            if i < rest.len() {
                assert(all[i] == head[i]);
                assert(rest[i] == db[i]);
            }
        }
        assert(all.drop_last() == head);
        assert(all.last() == (last.0, JsonView::Array(last.1)));
        crate::database::lemma_collection_at(rest, last.0);
        if collection_at(rest, last.0) < rest.len() {
            let k = collection_at(rest, last.0) as int;
            assert(rest[k].0 == last.0);
            assert(db[k] == rest[k]);
            assert(db[k].0 != db[db.len() - 1].0);
        }
        assert(with_docs(rest, last.0, last.1) == rest.push(last));
        assert(rest.push(last) == db);
    }
}

/// A database that is exported and imported again in place of whatever is there
/// is the one that was exported, whatever was there.
pub proof fn lemma_database_export_then_import(
    prefix: Seq<char>,
    name: Seq<char>,
    mode: Seq<char>,
    db: Seq<(Seq<char>, Seq<JsonView>)>,
    other: Seq<(Seq<char>, Seq<JsonView>)>,
)
    requires
        is_ordinary(db),
        mode != "merge"@,
    ensures
        ({
            let reply = database_reply(
                prefix,
                DatabasePlanView::Export { db: name },
                true,
                false,
                db,
            ).result;
            &&& reply is Object
            &&& incoming_collections(reply->Object_0) is Ok
            &&& imported_database(mode, other, incoming_collections(reply->Object_0)->Ok_0) == db
        }),
{
    lemma_exported(db);
}

/// Every operation on a database but an export is told of: the last thing to be
/// done is to tell clients of an event.
pub proof fn lemma_database_change_is_told(
    prefix: Seq<char>,
    plan: DatabasePlanView,
    existed: bool,
    deleted: bool,
    db: Seq<(Seq<char>, Seq<JsonView>)>,
)
    ensures
        ({
            let effects = database_reply(prefix, plan, existed, deleted, db).effects;
            if plan is Export {
                effects.len() == 0
            } else {
                effects.len() > 0 && effects.last() is Emit
            }
        }),
{
}

/// A request that is refused is answered with the reason and no value; its
/// response is not cached, and no cached response is given up for it.
pub proof fn lemma_refused_request(
    prefix: Seq<char>,
    name: Option<Seq<char>>,
    r: RequestView,
    reason: Seq<char>,
)
    ensures
        !error_of(reason).success,
        error_of(reason).message == reason,
        error_of(reason).response_json == "null"@,
        cached_entry(name, error_of(reason)) is None,
        stale_patterns(prefix, r, error_of(reason)).len() == 0,
{
}

/// The request that a client's message makes.
pub open spec fn action_request(func: Seq<char>, payload: Seq<(Seq<char>, JsonView)>) -> RequestView {
    RequestView {
        msg_type: "action"@,
        category: Some("collection"@),
        function_name: Some(func),
        payload: Some(JsonView::Object(payload)),
        database_name: None,
        collections: None,
    }
}

/// The server takes a client's request for an operation on a collection as it
/// is meant: for the database and the collection that the client names, with
/// everything that it brings along.
pub proof fn lemma_request_is_understood(
    db: Seq<char>,
    collection: Seq<char>,
    func: Seq<char>,
    more: Seq<(Seq<char>, JsonView)>,
    key: Seq<char>,
)
    requires
        db.len() > 0,
        collection.len() > 0,
        key != "database_name"@,
        key != "collectionName"@,
    ensures
        ({
            let payload = target(db, collection) + more;
            let p = JsonView::Object(payload);
            &&& route_of(action_request(func, payload)) == (RouteView::Collection {
                db,
                function: func,
            })
            &&& crate::request::wanted_collection(p) == Some(collection)
            &&& field(p, key) == lookup(more, key)
            &&& field(action_json(func, payload), "type"@) == Some(JsonView::String("action"@))
            &&& field(action_json(func, payload), "category"@) == Some(
                JsonView::String("collection"@),
            )
            &&& field(action_json(func, payload), "function_name"@) == Some(JsonView::String(func))
            &&& field(action_json(func, payload), "payload"@) == Some(p)
        }),
{
    reveal_strlit("database_name");
    reveal_strlit("collectionName");
    reveal_strlit("precache");
    reveal_strlit("action");
    reveal_strlit("collection");
    reveal_strlit("type");
    reveal_strlit("category");
    reveal_strlit("function_name");
    reveal_strlit("payload");
    let payload = target(db, collection) + more;
    assert("database_name"@.len() == 13);
    assert("collectionName"@.len() == 14);
    assert("precache"@.len() == 8);
    assert("action"@.len() == 6);
    assert(payload[0] == ("database_name"@, JsonView::String(db)));
    assert(payload[1] == ("collectionName"@, JsonView::String(collection)));
    crate::object::lemma_key_at_is(payload, "database_name"@, 0);
    crate::object::lemma_key_at_is(payload, "collectionName"@, 1);
    crate::object::lemma_key_at(more, key);
    let at = crate::object::key_at(more, key) as int;
    assert forall|i: int| 0 <= i < at + 2 implies (#[trigger] payload[i]).0 != key by {
        if i >= 2 {
            assert(payload[i] == more[i - 2]);
        }
    }
    if at < more.len() {
        assert(payload[at + 2] == more[at]);
    }
    crate::object::lemma_key_at_is(payload, key, at + 2);
    let o = action_json(func, payload)->Object_0;
    assert("type"@.len() == 4);
    assert("category"@.len() == 8);
    assert("function_name"@.len() == 13);
    assert("payload"@.len() == 7);
    crate::object::lemma_key_at_is(o, "type"@, 0);
    crate::object::lemma_key_at_is(o, "category"@, 1);
    crate::object::lemma_key_at_is(o, "function_name"@, 2);
    crate::object::lemma_key_at_is(o, "payload"@, 3);
}

/// Whether an operation on a collection is refused because nobody knows it.
pub open spec fn unknown_to_collections(func: Seq<char>, payload: JsonView) -> bool {
    collection_start(func, payload) == Err::<(Seq<char>, CollectionStepView), Seq<char>>(
        "Unknown collection function: "@ + func,
    )
}

proof fn lemma_collection_words(func: Seq<char>)
    ensures
        collection_functions().contains(func) <==> reads_collection(func) || changes_collection(func),
{
    let f = collection_functions();
    assert(f[0] == "find"@ && f[1] == "findOne"@ && f[2] == "insertOne"@ && f[3] == "updateOne"@);
    assert(f[4] == "replaceOne"@ && f[5] == "deleteOne"@ && f[6] == "deleteMany"@);
    assert(f[7] == "updateCollection"@ && f[8] == "exportCollection"@ && f[9] == "importCollection"@);
}

proof fn lemma_database_words(func: Seq<char>)
    ensures
        database_functions().contains(func) <==> reads_database(func) || changes_database(func),
{
    let f = database_functions();
    assert(f[0] == "createDatabase"@ && f[1] == "deleteDatabase"@ && f[2] == "renameDatabase"@);
    assert(f[3] == "createCollection"@ && f[4] == "deleteCollection"@);
    assert(f[5] == "renameCollection"@ && f[6] == "exportDatabase"@ && f[7] == "importDatabase"@);
}

/// The functions that the server lists are those that it knows: a function of a
/// category is listed exactly where it reads or changes, and one that is not
/// listed is refused by its name.
pub proof fn lemma_catalogue(
    func: Seq<char>,
    payload: JsonView,
    message: Option<Seq<char>>,
    collection: Seq<char>,
)
    requires
        crate::request::wanted_collection(payload) == Some(collection),
        !reserved_collection(collection),
    ensures
        collection_functions().contains(func) <==> reads_collection(func) || changes_collection(func),
        database_functions().contains(func) <==> reads_database(func) || changes_database(func),
        !collection_functions().contains(func) ==> unknown_to_collections(func, payload),
        !database_functions().contains(func) ==> database_start(func, payload, message) == Err::<
            DatabasePlanView,
            Seq<char>,
        >("Unknown database function: "@ + func),
        reads_collection(func) ==> collection_start(func, payload) is Ok,
        changes_collection(func) && func != "importCollection"@ ==> collection_start(
            func,
            payload,
        ) is Ok,
{
    lemma_collection_words(func);
    lemma_database_words(func);
    reveal_strlit("exportCollection");
    reveal_strlit("importCollection");
    assert("exportCollection"@[0] == 'e' && "importCollection"@[0] == 'i');
}

/// A value, or nothing where it is null.
pub open spec fn unless_null(v: JsonView) -> Option<JsonView> {
    if v is Null {
        None
    } else {
        Some(v)
    }
}

proof fn lemma_put_last(o: Seq<(Seq<char>, JsonView)>, k: Seq<char>, v: JsonView)
    requires
        forall|i: int| 0 <= i < o.len() ==> (#[trigger] o[i]).0 != k,
    ensures
        with_key(o, k, v) == o.push((k, v)),
{
    crate::object::lemma_key_at_is(o, k, o.len() as int);
}

/// What the server tells of a change to a collection, a client hears as that
/// change: its kind, its collection, and the documents before and after it.
pub proof fn lemma_client_hears_change(
    db: Seq<char>,
    collection: Seq<char>,
    event: Seq<char>,
    before: JsonView,
    after: JsonView,
    summary: JsonView,
    ts: u64,
)
    ensures
        incoming_of(
            event_value(
                "collection"@,
                event,
                change_event(db, collection, before, after, summary),
                ts,
            ),
        ) == IncomingView::Changed(
            crate::findcache::ChangeView {
                category: "collection"@,
                collection_name: collection,
                event,
                before: unless_null(before),
                after: unless_null(after),
            },
        ),
{
    reveal_strlit("database_name");
    reveal_strlit("collectionName");
    reveal_strlit("before");
    reveal_strlit("after");
    reveal_strlit("summary");
    reveal_strlit("kind");
    reveal_strlit("category");
    reveal_strlit("event");
    reveal_strlit("ts");
    reveal_strlit("success");
    reveal_strlit("message");
    reveal_strlit("response_json");
    assert("database_name"@[0] == 'd');
    assert("collectionName"@[0] == 'c');
    assert("before"@[0] == 'b');
    assert("after"@[0] == 'a');
    assert("summary"@[1] == 'u' && "summary"@[2] == 'm');
    assert("kind"@[0] == 'k');
    assert("category"@[1] == 'a');
    assert("collectionName"@[1] == 'o');
    assert("event"@[0] == 'e');
    assert("ts"@[0] == 't');
    assert("success"@[1] == 'u' && "success"@[2] == 'c');
    assert("message"@[0] == 'm');
    assert("response_json"@[0] == 'r');
    let o = change_event(db, collection, before, after, summary)->Object_0;
    let kind = ("kind"@, JsonView::String("change"@));
    let category = ("category"@, JsonView::String("collection"@));
    let name = ("event"@, JsonView::String(event));
    let time = ("ts"@, JsonView::Number(crate::json::Numeral::PosInt(ts)));
    lemma_put_last(o, kind.0, kind.1);
    let a = o.push(kind);
    lemma_put_last(a, category.0, category.1);
    let b = a.push(category);
    lemma_put_last(b, name.0, name.1);
    let c = b.push(name);
    lemma_put_last(c, time.0, time.1);
    let d = c.push(time);
    let body = JsonView::Object(d);
    let success = ("success"@, JsonView::Bool(true));
    let message = ("message"@, JsonView::String("change_event"@));
    let response = ("response_json"@, body);
    lemma_put_last(d, success.0, success.1);
    let e = d.push(success);
    lemma_put_last(e, message.0, message.1);
    let f = e.push(message);
    lemma_put_last(f, response.0, response.1);
    let g = f.push(response);
    let v = event_value(
        "collection"@,
        event,
        change_event(db, collection, before, after, summary),
        ts,
    );
    assert(v == JsonView::Object(g));
    assert(g[1].0 == "collectionName"@ && g[2].0 == "before"@ && g[3].0 == "after"@);
    assert(g[5] == kind && g[6] == category && g[7] == name);
    crate::object::lemma_key_at_is(g, "collectionName"@, 1);
    crate::object::lemma_key_at_is(g, "before"@, 2);
    crate::object::lemma_key_at_is(g, "after"@, 3);
    crate::object::lemma_key_at_is(g, "kind"@, 5);
    crate::object::lemma_key_at_is(g, "category"@, 6);
    crate::object::lemma_key_at_is(g, "event"@, 7);
}

/// A query for one document gives the first of those that the query for all
/// gives, or null where there are none.
pub proof fn lemma_find_one_is_first(
    filter: JsonView,
    docs: Seq<JsonView>,
    all: Seq<JsonView>,
    one: Seq<JsonView>,
)
    requires
        answers(plain_query(filter), docs, all),
        answers((QueryView { limit: Some(1), ..plain_query(filter) }), docs, one),
    ensures
        first_or_null(None, one) == (if all.len() > 0 {
            all[0]
        } else {
            JsonView::Null
        }),
{
    lemma_answers(plain_query(filter), docs, all);
}

} // verus!
