//! What the operations on a collection do to its documents, what they answer,
//! and what they have to be done and told, stated on the documents themselves.

use crate::collection::{
    change_event, change_result, change_summary, changed, collection_outcome, count_value, lemma_first_where,
    match_at, replaced, upserted, ChangeView, EffectView, OutcomeView,
};
use crate::filter::{is_operators, selects};
use crate::json::JsonView;
use crate::object::{field, lemma_key_at_is, lemma_lookup_with_key};
use crate::querylaws::integer;
use crate::update::edited;
use vstd::prelude::*;

verus! {

/// Whether a document is the first of a list that a filter selects.
pub open spec fn is_first(docs: Seq<JsonView>, filter: JsonView, i: int) -> bool {
    0 <= i < docs.len() && selects(filter, docs[i]) && forall|j: int|
        0 <= j < i ==> !selects(filter, #[trigger] docs[j])
}

/// Whether a filter selects no document of a list.
pub open spec fn none_is(docs: Seq<JsonView>, filter: JsonView) -> bool {
    forall|j: int| 0 <= j < docs.len() ==> !selects(filter, #[trigger] docs[j])
}

/// Whether a payload asks for a document to be added where none is found, or
/// not: under its options, or beside them where they do not say.
pub open spec fn asks_to_add(payload: JsonView, add: bool) -> bool {
    ||| (field(payload, "options"@) matches Some(o) && field(o, "upsert"@) == Some(JsonView::Bool(add)))
    ||| (field(payload, "options"@) is None && field(payload, "upsert"@) == Some(
        JsonView::Bool(add),
    ))
    ||| (field(payload, "options"@) is None && field(payload, "upsert"@) is None && !add)
}

/// Whether an effect tells of a change to a collection: what it is, where, and
/// the documents before and after it.
pub open spec fn tells_of(
    e: EffectView,
    event: Seq<char>,
    db: Seq<char>,
    collection: Seq<char>,
    before: JsonView,
    after: JsonView,
) -> bool {
    e matches EffectView::Emit { event: name, payload } && name == event && field(
        payload,
        "database_name"@,
    ) == Some(JsonView::String(db)) && field(payload, "collectionName"@) == Some(
        JsonView::String(collection),
    ) && field(payload, "before"@) == Some(before) && field(payload, "after"@) == Some(after)
}

/// Whether a result has the counts of a change to one document.
pub open spec fn has_counts(
    result: JsonView,
    matched: int,
    modified: int,
    upserted: int,
    id: JsonView,
) -> bool {
    field(result, "acknowledged"@) == Some(JsonView::Bool(true)) && field(result, "matchedCount"@)
        == Some(integer(matched)) && field(result, "modifiedCount"@) == Some(integer(modified))
        && field(result, "upsertedCount"@) == Some(integer(upserted)) && field(
        result,
        "upsertedId"@,
    ) == Some(id)
}

/// The id of a document, or null where it has none.
pub open spec fn own_id(doc: JsonView) -> JsonView {
    match field(doc, "_id"@) {
        Some(id) => id,
        None => JsonView::Null,
    }
}

/// What keeps a document under its id, where that is a text; without an id it is
/// not kept.
pub open spec fn keeps(effects: Seq<EffectView>, doc: JsonView) -> bool {
    match field(doc, "_id"@) {
        Some(JsonView::String(id)) => effects == seq![EffectView::CacheDoc { id, doc }],
        Some(_) => effects.len() == 1 && effects[0] is CacheDoc && effects[0]->CacheDoc_doc == doc,
        None => effects.len() == 0,
    }
}

/// What stops keeping a document.
pub open spec fn forgets(effects: Seq<EffectView>, doc: JsonView) -> bool {
    match field(doc, "_id"@) {
        Some(JsonView::String(id)) => effects == seq![EffectView::UncacheDoc { id }],
        Some(_) => effects.len() == 1 && effects[0] is UncacheDoc,
        None => effects.len() == 0,
    }
}

proof fn lemma_first(docs: Seq<JsonView>, filter: JsonView, i: int)
    requires
        is_first(docs, filter, i),
    ensures
        match_at(docs, filter) == i,
{
    lemma_first_where(docs, |d: JsonView| selects(filter, d));
}

proof fn lemma_none(docs: Seq<JsonView>, filter: JsonView)
    requires
        none_is(docs, filter),
    ensures
        match_at(docs, filter) == docs.len(),
{
    lemma_first_where(docs, |d: JsonView| selects(filter, d));
}

proof fn lemma_read(o: Seq<(Seq<char>, JsonView)>, i: int, k: Seq<char>)
    requires
        0 <= i < o.len(),
        o[i].0 == k,
        forall|j: int| 0 <= j < i ==> (#[trigger] o[j]).0 != k,
    ensures
        field(JsonView::Object(o), k) == Some(o[i].1),
{
    lemma_key_at_is(o, k, i);
}

/// The event of a change says what it is about.
pub proof fn lemma_event_read(
    event: Seq<char>,
    db: Seq<char>,
    collection: Seq<char>,
    before: JsonView,
    after: JsonView,
    summary: JsonView,
)
    ensures
        tells_of(
            EffectView::Emit { event, payload: change_event(db, collection, before, after, summary) },
            event,
            db,
            collection,
            before,
            after,
        ),
        field(change_event(db, collection, before, after, summary), "summary"@) == Some(summary),
{
    reveal_strlit("database_name");
    reveal_strlit("collectionName");
    reveal_strlit("before");
    reveal_strlit("after");
    reveal_strlit("summary");
    assert("database_name"@.len() == 13);
    assert("collectionName"@.len() == 14);
    assert("before"@.len() == 6);
    assert("after"@.len() == 5);
    assert("summary"@.len() == 7);
    let o = change_event(db, collection, before, after, summary)->Object_0;
    assert(o[0].0 == "database_name"@ && o[1].0 == "collectionName"@ && o[2].0 == "before"@);
    assert(o[3].0 == "after"@ && o[4].0 == "summary"@);
    lemma_read(o, 0, "database_name"@);
    lemma_read(o, 1, "collectionName"@);
    lemma_read(o, 2, "before"@);
    lemma_read(o, 3, "after"@);
    lemma_read(o, 4, "summary"@);
}

/// The result of a change has its counts.
pub proof fn lemma_counts_read(c: ChangeView)
    ensures
        has_counts(
            change_result(c),
            c.matched as int,
            c.modified as int,
            c.upserted as int,
            c.upserted_id,
        ),
{
    reveal_strlit("acknowledged");
    reveal_strlit("matchedCount");
    reveal_strlit("modifiedCount");
    reveal_strlit("upsertedCount");
    reveal_strlit("upsertedId");
    assert("acknowledged"@.len() == 12);
    assert("matchedCount"@.len() == 12);
    assert("modifiedCount"@.len() == 13);
    assert("upsertedCount"@.len() == 13);
    assert("upsertedId"@.len() == 10);
    assert("acknowledged"@[0] == 'a');
    assert("matchedCount"@[0] == 'm');
    assert("modifiedCount"@[0] == 'm');
    assert("upsertedCount"@[0] == 'u');
    let o = change_result(c)->Object_0;
    assert(o[0].0 == "acknowledged"@ && o[1] == change_summary(c)->Object_0[0]);
    assert(o[2] == change_summary(c)->Object_0[1] && o[3] == change_summary(c)->Object_0[2]);
    assert(o[4] == change_summary(c)->Object_0[3]);
    lemma_read(o, 0, "acknowledged"@);
    lemma_read(o, 1, "matchedCount"@);
    lemma_read(o, 2, "modifiedCount"@);
    lemma_read(o, 3, "upsertedCount"@);
    lemma_read(o, 4, "upsertedId"@);
}

proof fn lemma_function_words()
    ensures
        "insertOne"@ != "updateOne"@,
        "insertOne"@ != "replaceOne"@,
        "insertOne"@ != "deleteOne"@,
        "insertOne"@ != "deleteMany"@,
        "insertOne"@ != "updateCollection"@,
        "insertOne"@ != "exportCollection"@,
        "insertOne"@ != "importCollection"@,
        "updateOne"@ != "replaceOne"@,
        "updateOne"@ != "deleteOne"@,
        "updateOne"@ != "deleteMany"@,
        "updateOne"@ != "updateCollection"@,
        "updateOne"@ != "exportCollection"@,
        "updateOne"@ != "importCollection"@,
        "replaceOne"@ != "deleteOne"@,
        "replaceOne"@ != "deleteMany"@,
        "replaceOne"@ != "updateCollection"@,
        "replaceOne"@ != "exportCollection"@,
        "replaceOne"@ != "importCollection"@,
        "deleteOne"@ != "deleteMany"@,
        "deleteOne"@ != "updateCollection"@,
        "deleteOne"@ != "exportCollection"@,
        "deleteOne"@ != "importCollection"@,
        "deleteMany"@ != "updateCollection"@,
        "deleteMany"@ != "exportCollection"@,
        "deleteMany"@ != "importCollection"@,
        "updateCollection"@ != "exportCollection"@,
        "updateCollection"@ != "importCollection"@,
        "exportCollection"@ != "importCollection"@,
{
    reveal_strlit("insertOne");
    reveal_strlit("updateOne");
    reveal_strlit("replaceOne");
    reveal_strlit("deleteOne");
    reveal_strlit("deleteMany");
    reveal_strlit("updateCollection");
    reveal_strlit("exportCollection");
    reveal_strlit("importCollection");
    assert("insertOne"@.len() == 9);
    assert("updateOne"@.len() == 9);
    assert("replaceOne"@.len() == 10);
    assert("deleteOne"@.len() == 9);
    assert("deleteMany"@.len() == 10);
    assert("updateCollection"@.len() == 16);
    assert("exportCollection"@.len() == 16);
    assert("importCollection"@.len() == 16);
    assert("deleteMany"@[0] == 'd');
    assert("deleteOne"@[0] == 'd');
    assert("exportCollection"@[0] == 'e');
    assert("importCollection"@[0] == 'i');
    assert("insertOne"@[0] == 'i');
    assert("replaceOne"@[0] == 'r');
    assert("updateCollection"@[0] == 'u');
    assert("updateOne"@[0] == 'u');
}

/// What a change in the place of a document comes to.
pub open spec fn is_change_at(
    o: OutcomeView,
    event: Seq<char>,
    db: Seq<char>,
    collection: Seq<char>,
    docs: Seq<JsonView>,
    i: int,
    new: JsonView,
    modified: bool,
) -> bool {
    let n = o.effects.len() as int;
    &&& o.docs == docs.update(i, new)
    &&& has_counts(
        o.result,
        1,
        if modified {
            1
        } else {
            0
        },
        0,
        JsonView::Null,
    )
    &&& n >= 4
    &&& o.effects[0] == (EffectView::Unindex { doc: docs[i] })
    &&& o.effects[1] == (EffectView::Index { doc: new })
    &&& keeps(o.effects.subrange(2, n - 2), new)
    &&& o.effects[n - 2] is Save
    &&& tells_of(o.effects[n - 1], event, db, collection, docs[i], new)
}

/// What adding a document comes to, where none was found.
pub open spec fn is_addition(
    o: OutcomeView,
    event: Seq<char>,
    db: Seq<char>,
    collection: Seq<char>,
    docs: Seq<JsonView>,
    new: JsonView,
) -> bool {
    let n = o.effects.len() as int;
    &&& o.docs == docs.push(new)
    &&& has_counts(o.result, 0, 0, 1, own_id(new))
    &&& n >= 3
    &&& o.effects[0] == (EffectView::Index { doc: new })
    &&& keeps(o.effects.subrange(1, n - 2), new)
    &&& o.effects[n - 2] is Save
    &&& tells_of(o.effects[n - 1], event, db, collection, JsonView::Null, new)
}

/// What it comes to that nothing is found and nothing is added.
pub open spec fn is_nothing(o: OutcomeView, docs: Seq<JsonView>) -> bool {
    o.docs == docs && o.effects.len() == 0 && has_counts(o.result, 0, 0, 0, JsonView::Null)
}

proof fn lemma_keeps(doc: JsonView)
    ensures
        keeps(crate::collection::caching(doc), doc),
        forgets(crate::collection::uncaching_all(seq![doc]), doc),
{
    let s = seq![doc];
    assert(s.drop_last() == Seq::<JsonView>::empty());
    assert(s.last() == doc);
    assert(crate::collection::uncaching_all(s.drop_last()) == Seq::<EffectView>::empty());
    if let Some(JsonView::String(id)) = field(doc, "_id"@) {
        assert(crate::collection::uncaching_all(s) == seq![EffectView::UncacheDoc { id }]);
    }
}

proof fn lemma_change_parts(
    event: Seq<char>,
    db: Seq<char>,
    collection: Seq<char>,
    docs: Seq<JsonView>,
    i: int,
    new: JsonView,
    modified: bool,
)
    requires
        0 <= i < docs.len(),
    ensures
        is_change_at(
            crate::collection::change_outcome(
                db,
                collection,
                event,
                crate::collection::change_at(docs, i, new, modified),
            ),
            event,
            db,
            collection,
            docs,
            i,
            new,
            modified,
        ),
        is_addition(
            crate::collection::change_outcome(
                db,
                collection,
                event,
                crate::collection::change_adding(docs, new),
            ),
            event,
            db,
            collection,
            docs,
            new,
        ),
{
    let c = crate::collection::change_at(docs, i, new, modified);
    let o = crate::collection::change_outcome(db, collection, event, c);
    lemma_keeps(new);
    lemma_counts_read(c);
    lemma_event_read(event, db, collection, docs[i], new, change_summary(c));
    assert(o.effects.subrange(2, o.effects.len() - 2) == crate::collection::caching(new));
    lemma_addition_parts(event, db, collection, docs, new);
}

proof fn lemma_addition_parts(
    event: Seq<char>,
    db: Seq<char>,
    collection: Seq<char>,
    docs: Seq<JsonView>,
    new: JsonView,
)
    ensures
        is_addition(
            crate::collection::change_outcome(
                db,
                collection,
                event,
                crate::collection::change_adding(docs, new),
            ),
            event,
            db,
            collection,
            docs,
            new,
        ),
        is_nothing(
            crate::collection::change_outcome(
                db,
                collection,
                event,
                crate::collection::no_change(docs),
            ),
            docs,
        ),
{
    lemma_keeps(new);
    let d = crate::collection::change_adding(docs, new);
    let p = crate::collection::change_outcome(db, collection, event, d);
    lemma_counts_read(d);
    lemma_counts_read(crate::collection::no_change(docs));
    lemma_event_read(event, db, collection, JsonView::Null, new, change_summary(d));
    assert(p.effects.subrange(1, p.effects.len() - 2) == crate::collection::caching(new));
}

/// A replacement takes the place of the first document that the filter selects,
/// with all its own fields and the id of the old one; where none is selected it
/// is added as it is if that is asked for, and else nothing happens.
pub proof fn lemma_replace_one(
    db: Seq<char>,
    collection: Seq<char>,
    payload: JsonView,
    docs: Seq<JsonView>,
    filter: JsonView,
    new: JsonView,
    i: int,
    r: JsonView,
    k: Seq<char>,
)
    requires
        field(payload, "filter"@) == Some(filter),
        field(payload, "replacement"@) == Some(new),
        r == collection_outcome(db, collection, "replaceOne"@, payload, docs)->Ok_0.docs[i],
    ensures
        collection_outcome(db, collection, "replaceOne"@, payload, docs) is Ok,
        is_first(docs, filter, i) ==> is_change_at(
            collection_outcome(db, collection, "replaceOne"@, payload, docs)->Ok_0,
            "replaceOne"@,
            db,
            collection,
            docs,
            i,
            r,
            true,
        ),
        is_first(docs, filter, i) && new is Object ==> field(r, k) == (if k == "_id"@ && field(
            docs[i],
            k,
        ) is Some {
            field(docs[i], k)
        } else {
            field(new, k)
        }),
        none_is(docs, filter) && asks_to_add(payload, true) ==> is_addition(
            collection_outcome(db, collection, "replaceOne"@, payload, docs)->Ok_0,
            "replaceOne"@,
            db,
            collection,
            docs,
            new,
        ),
        none_is(docs, filter) && asks_to_add(payload, false) ==> is_nothing(
            collection_outcome(db, collection, "replaceOne"@, payload, docs)->Ok_0,
            docs,
        ),
{
    lemma_function_words();
    if is_first(docs, filter, i) {
        lemma_first(docs, filter, i);
        lemma_change_parts(
            "replaceOne"@,
            db,
            collection,
            docs,
            i,
            replaced(new, docs[i]),
            true,
        );
        if let JsonView::Object(o) = new {
            if let Some(id) = field(docs[i], "_id"@) {
                lemma_lookup_with_key(o, "_id"@, id, k);
            }
        }
    }
    if none_is(docs, filter) {
        lemma_none(docs, filter);
        lemma_addition_parts("replaceOne"@, db, collection, docs, new);
    }
}

/// An update by operators changes the first document that the filter selects as
/// the operators say; one without operators takes its place but for the id.
/// Where none is selected a document is added if that is asked for, and else
/// nothing happens.
pub proof fn lemma_update_one(
    db: Seq<char>,
    collection: Seq<char>,
    payload: JsonView,
    docs: Seq<JsonView>,
    filter: JsonView,
    update: JsonView,
    i: int,
    r: JsonView,
    k: Seq<char>,
)
    requires
        field(payload, "filter"@) == Some(filter),
        field(payload, "update"@) == Some(update),
        r == collection_outcome(db, collection, "updateOne"@, payload, docs)->Ok_0.docs[i],
    ensures
        collection_outcome(db, collection, "updateOne"@, payload, docs) is Ok,
        is_first(docs, filter, i) && is_operators(update) ==> is_change_at(
            collection_outcome(db, collection, "updateOne"@, payload, docs)->Ok_0,
            "updateOne"@,
            db,
            collection,
            docs,
            i,
            edited(update, docs[i]).doc,
            edited(update, docs[i]).modified,
        ),
        is_first(docs, filter, i) && !is_operators(update) ==> is_change_at(
            collection_outcome(db, collection, "updateOne"@, payload, docs)->Ok_0,
            "updateOne"@,
            db,
            collection,
            docs,
            i,
            r,
            true,
        ),
        is_first(docs, filter, i) && !is_operators(update) && update is Object ==> field(r, k) == (
        if k == "_id"@ && field(docs[i], k) is Some {
            field(docs[i], k)
        } else {
            field(update, k)
        }),
        none_is(docs, filter) && asks_to_add(payload, true) ==> is_addition(
            collection_outcome(db, collection, "updateOne"@, payload, docs)->Ok_0,
            "updateOne"@,
            db,
            collection,
            docs,
            upserted(filter, update),
        ),
        none_is(docs, filter) && asks_to_add(payload, false) ==> is_nothing(
            collection_outcome(db, collection, "updateOne"@, payload, docs)->Ok_0,
            docs,
        ),
{
    lemma_function_words();
    if is_first(docs, filter, i) {
        lemma_first(docs, filter, i);
        let c = changed(update, docs[i]);
        lemma_change_parts("updateOne"@, db, collection, docs, i, c.0, c.1);
        if let JsonView::Object(o) = update {
            if let Some(id) = field(docs[i], "_id"@) {
                lemma_lookup_with_key(o, "_id"@, id, k);
            }
        }
    }
    if none_is(docs, filter) {
        lemma_none(docs, filter);
        lemma_addition_parts("updateOne"@, db, collection, docs, upserted(filter, update));
    }
}

/// An inserted document stands at the end, as it is; it is saved, indexed, kept
/// and told of, and its id is answered.
pub proof fn lemma_insert_one(
    db: Seq<char>,
    collection: Seq<char>,
    payload: JsonView,
    docs: Seq<JsonView>,
    doc: JsonView,
)
    requires
        field(payload, "document"@) == Some(doc),
    ensures
        collection_outcome(db, collection, "insertOne"@, payload, docs) matches Ok(o) && {
            let n = o.effects.len() as int;
            &&& o.docs == docs.push(doc)
            &&& field(o.result, "acknowledged"@) == Some(JsonView::Bool(true))
            &&& field(o.result, "insertedId"@) == Some(own_id(doc))
            &&& n >= 3
            &&& o.effects[0] is Save
            &&& o.effects[1] == (EffectView::Index { doc })
            &&& keeps(o.effects.subrange(2, n - 1), doc)
            &&& tells_of(o.effects[n - 1], "insertOne"@, db, collection, JsonView::Null, doc)
        },
{
    reveal_strlit("acknowledged");
    reveal_strlit("insertedId");
    assert("acknowledged"@.len() == 12);
    assert("insertedId"@.len() == 10);
    lemma_keeps(doc);
    let o = collection_outcome(db, collection, "insertOne"@, payload, docs)->Ok_0;
    assert(o.effects.subrange(2, o.effects.len() - 1) == crate::collection::caching(doc));
    lemma_read(o.result->Object_0, 0, "acknowledged"@);
    lemma_read(o.result->Object_0, 1, "insertedId"@);
    lemma_event_read(
        "insertOne"@,
        db,
        collection,
        JsonView::Null,
        doc,
        JsonView::Object(seq![("insertedId"@, own_id(doc))]),
    );
}

/// What is not given is asked for: an operation without the document, update or
/// replacement that it needs is refused.
#[verifier::rlimit(40)]
pub proof fn lemma_missing_parts_are_refused(
    db: Seq<char>,
    collection: Seq<char>,
    payload: JsonView,
    docs: Seq<JsonView>,
)
    ensures
        field(payload, "document"@) is None ==> collection_outcome(
            db,
            collection,
            "insertOne"@,
            payload,
            docs,
        ) == Err::<OutcomeView, Seq<char>>("document is required"@),
        field(payload, "update"@) is None ==> collection_outcome(
            db,
            collection,
            "updateOne"@,
            payload,
            docs,
        ) == Err::<OutcomeView, Seq<char>>("update is required"@),
        field(payload, "replacement"@) is None ==> collection_outcome(
            db,
            collection,
            "replaceOne"@,
            payload,
            docs,
        ) == Err::<OutcomeView, Seq<char>>("replacement is required"@),
{
    lemma_function_words();
    assert("document"@ + " is required"@ == "document is required"@) by {
        reveal_strlit("document");
        reveal_strlit(" is required");
        reveal_strlit("document is required");
    }
    assert("update"@ + " is required"@ == "update is required"@) by {
        reveal_strlit("update");
        reveal_strlit(" is required");
        reveal_strlit("update is required");
    }
    assert("replacement"@ + " is required"@ == "replacement is required"@) by {
        reveal_strlit("replacement");
        reveal_strlit(" is required");
        reveal_strlit("replacement is required");
    }
}

/// Deleting one document takes out the first that the filter selects, unindexes
/// and forgets it, saves and tells; where none is selected nothing happens.
pub proof fn lemma_delete_one(
    db: Seq<char>,
    collection: Seq<char>,
    payload: JsonView,
    docs: Seq<JsonView>,
    filter: JsonView,
    i: int,
)
    requires
        field(payload, "filter"@) == Some(filter),
    ensures
        is_first(docs, filter, i) ==> (collection_outcome(
            db,
            collection,
            "deleteOne"@,
            payload,
            docs,
        ) matches Ok(o) && {
            let n = o.effects.len() as int;
            &&& o.docs == docs.remove(i)
            &&& field(o.result, "acknowledged"@) == Some(JsonView::Bool(true))
            &&& field(o.result, "deletedCount"@) == Some(integer(1))
            &&& n >= 3
            &&& o.effects[0] == (EffectView::Unindex { doc: docs[i] })
            &&& forgets(o.effects.subrange(1, n - 2), docs[i])
            &&& o.effects[n - 2] is Save
            &&& tells_of(o.effects[n - 1], "deleteOne"@, db, collection, docs[i], JsonView::Null)
        }),
        none_is(docs, filter) ==> (collection_outcome(
            db,
            collection,
            "deleteOne"@,
            payload,
            docs,
        ) matches Ok(o) && o.docs == docs && o.effects.len() == 0 && field(
            o.result,
            "deletedCount"@,
        ) == Some(integer(0))),
{
    lemma_function_words();
    reveal_strlit("acknowledged");
    reveal_strlit("deletedCount");
    assert("acknowledged"@.len() == 12);
    assert("deletedCount"@.len() == 12);
    assert("acknowledged"@[0] == 'a');
    assert("deletedCount"@[0] == 'd');
    let o = collection_outcome(db, collection, "deleteOne"@, payload, docs)->Ok_0;
    if is_first(docs, filter, i) {
        lemma_first(docs, filter, i);
        lemma_keeps(docs[i]);
        let gone = crate::collection::uncaching_all(seq![docs[i]]);
        assert(o.effects.subrange(1, o.effects.len() - 2) == gone);
        lemma_read(o.result->Object_0, 0, "acknowledged"@);
        lemma_read(o.result->Object_0, 1, "deletedCount"@);
        lemma_event_read(
            "deleteOne"@,
            db,
            collection,
            docs[i],
            JsonView::Null,
            JsonView::Object(seq![("deletedCount"@, count_value(1))]),
        );
    }
    if none_is(docs, filter) {
        lemma_none(docs, filter);
        lemma_read(o.result->Object_0, 1, "deletedCount"@);
    }
}

proof fn lemma_remaining_filters(filter: JsonView, docs: Seq<JsonView>)
    ensures
        crate::collection::remaining(filter, docs) == docs.filter(
            |d: JsonView| !selects(filter, d),
        ),
    decreases docs.len(),
{
    reveal(Seq::filter);
    if docs.len() > 0 {
        lemma_remaining_filters(filter, docs.drop_last());
    }
}

/// Deleting many documents leaves those that the filter does not select, in
/// their order, and answers how many were selected; each of them is unindexed,
/// and they are told of together.  Where none is selected nothing happens.
pub proof fn lemma_delete_many(
    db: Seq<char>,
    collection: Seq<char>,
    payload: JsonView,
    docs: Seq<JsonView>,
    filter: JsonView,
)
    requires
        field(payload, "filter"@) == Some(filter),
        docs.len() <= u64::MAX,
    ensures
        collection_outcome(db, collection, "deleteMany"@, payload, docs) matches Ok(o) && {
            let gone = docs.filter(|d: JsonView| selects(filter, d));
            let n = o.effects.len() as int;
            &&& o.docs == docs.filter(|d: JsonView| !selects(filter, d))
            &&& field(o.result, "acknowledged"@) == Some(JsonView::Bool(true))
            &&& field(o.result, "deletedCount"@) == Some(integer(gone.len() as int))
            &&& gone.len() == 0 ==> n == 0
            &&& gone.len() > 0 ==> n >= gone.len() + 2 && o.effects[n - 2] is Save && tells_of(
                o.effects[n - 1],
                "deleteMany"@,
                db,
                collection,
                JsonView::Array(gone),
                JsonView::Null,
            )
            &&& forall|j: int|
                0 <= j < gone.len() ==> #[trigger] o.effects[j] == (EffectView::Unindex { doc: gone[j] })
        },
{
    lemma_function_words();
    reveal_strlit("acknowledged");
    reveal_strlit("deletedCount");
    assert("acknowledged"@.len() == 12);
    assert("deletedCount"@.len() == 12);
    assert("acknowledged"@[0] == 'a');
    assert("deletedCount"@[0] == 'd');
    let o = collection_outcome(db, collection, "deleteMany"@, payload, docs)->Ok_0;
    crate::listlaws::lemma_matching_filters(filter, docs);
    crate::collection::lemma_remaining(filter, docs);
    lemma_remaining_filters(filter, docs);
    let gone = docs.filter(|d: JsonView| selects(filter, d));
    lemma_read(o.result->Object_0, 0, "acknowledged"@);
    lemma_read(o.result->Object_0, 1, "deletedCount"@);
    lemma_event_read(
        "deleteMany"@,
        db,
        collection,
        JsonView::Array(gone),
        JsonView::Null,
        JsonView::Object(seq![("deletedCount"@, count_value(gone.len()))]),
    );
    if gone.len() == 0 {
        assert(crate::collection::uncaching_all(gone) == Seq::<EffectView>::empty());
    }
}

} // verus!
