//! What a client asks the server for, what it makes of what comes in, and what it
//! keeps.

use crate::client::{
    action_json, closed_client, delete_change, delete_message, find_message, find_one_message, find_payload,
    first_alive, incoming_of, insert_change, insert_message, joined_names, kept_after_update, link_step,
    metadata_message, precache_message, replace_change, replace_message, rows_of, settled, settled_request,
    new_client, nonempty_names, request_result, submitted, target, update_message, write_message, ClientView,
    IncomingView, LinkActionView, LinkEvent, RequestEnd,
};
use crate::findcache::{
    after_change, find_key_value, id_text, is_snapshot, kept, limited, no_options, options_json, others, refreshed,
    weights_entries, without_collection, ChangeView, EntryView, OptionsView,
};
use crate::json::JsonView;
use crate::object::{field, lemma_key_at_is, lemma_lookup_with_key, lookup};
use crate::querylaws::integer;
use crate::wire::{parsed, text_of};
use vstd::prelude::*;

verus! {

/// Whether a message asks for an operation on a collection of a database, with a
/// payload.
pub open spec fn asks(
    msg: JsonView,
    func: Seq<char>,
    db: Seq<char>,
    collection: Seq<char>,
    payload: JsonView,
) -> bool {
    field(msg, "type"@) == Some(JsonView::String("action"@)) && field(msg, "category"@) == Some(
        JsonView::String("collection"@),
    ) && field(msg, "function_name"@) == Some(JsonView::String(func)) && field(msg, "payload"@) == Some(
        payload,
    ) && field(payload, "database_name"@) == Some(JsonView::String(db)) && field(
        payload,
        "collectionName"@,
    ) == Some(JsonView::String(collection))
}

proof fn lemma_read(o: Seq<(Seq<char>, JsonView)>, i: int, k: Seq<char>)
    requires
        0 <= i < o.len(),
        o[i].0 == k,
        forall|j: int| 0 <= j < i ==> (#[trigger] o[j]).0 != k,
    ensures
        field(JsonView::Object(o), k) == Some(o[i].1),
{
    lemma_key_at_is(o, k, i);
}

proof fn lemma_asks(
    func: Seq<char>,
    db: Seq<char>,
    collection: Seq<char>,
    payload: Seq<(Seq<char>, JsonView)>,
)
    requires
        payload.len() >= 2,
        payload[0] == target(db, collection)[0],
        payload[1] == target(db, collection)[1],
    ensures
        asks(action_json(func, payload), func, db, collection, JsonView::Object(payload)),
{
    reveal_strlit("type");
    reveal_strlit("category");
    reveal_strlit("function_name");
    reveal_strlit("payload");
    assert("type"@.len() == 4);
    assert("category"@.len() == 8);
    assert("function_name"@.len() == 13);
    assert("payload"@.len() == 7);
    reveal_strlit("database_name");
    reveal_strlit("collectionName");
    assert("database_name"@.len() == 13);
    assert("collectionName"@.len() == 14);
    let o = action_json(func, payload)->Object_0;
    lemma_read(o, 0, "type"@);
    lemma_read(o, 1, "category"@);
    lemma_read(o, 2, "function_name"@);
    lemma_read(o, 3, "payload"@);
    lemma_read(payload, 0, "database_name"@);
    lemma_read(payload, 1, "collectionName"@);
}

/// What a client asks for is what its user asked for: the operation, on the
/// client's database and the named collection, with the document, filter, update,
/// replacement, options or data as they were given.
pub proof fn lemma_client_asks(
    db: Seq<char>,
    collection: Seq<char>,
    a: JsonView,
    b: JsonView,
    c: JsonView,
)
    ensures
        ({
            let p = field(insert_message(db, collection, a), "payload"@)->Some_0;
            asks(insert_message(db, collection, a), "insertOne"@, db, collection, p) && field(
                p,
                "document"@,
            ) == Some(a)
        }),
        ({
            let p = field(find_one_message(db, collection, a), "payload"@)->Some_0;
            asks(find_one_message(db, collection, a), "findOne"@, db, collection, p) && field(
                p,
                "filter"@,
            ) == Some(a)
        }),
        ({
            let p = field(delete_message(db, collection, a), "payload"@)->Some_0;
            asks(delete_message(db, collection, a), "deleteOne"@, db, collection, p) && field(
                p,
                "filter"@,
            ) == Some(a)
        }),
        ({
            let p = field(write_message(db, collection, a), "payload"@)->Some_0;
            asks(write_message(db, collection, a), "updateCollection"@, db, collection, p) && field(
                p,
                "data"@,
            ) == Some(a)
        }),
        ({
            let m = update_message(db, collection, a, b, c);
            let p = field(m, "payload"@)->Some_0;
            asks(m, "updateOne"@, db, collection, p) && field(p, "filter"@) == Some(a) && field(
                p,
                "update"@,
            ) == Some(b) && field(p, "options"@) == Some(c)
        }),
        ({
            let m = replace_message(db, collection, a, b, c);
            let p = field(m, "payload"@)->Some_0;
            asks(m, "replaceOne"@, db, collection, p) && field(p, "filter"@) == Some(a) && field(
                p,
                "replacement"@,
            ) == Some(b) && field(p, "options"@) == Some(c)
        }),
{
    let t = target(db, collection);
    let i = t.push(("document"@, a));
    let f = t.push(("filter"@, a));
    let w = t.push(("data"@, a));
    let u = t.push(("filter"@, a)).push(("update"@, b)).push(("options"@, c));
    let r = t.push(("filter"@, a)).push(("replacement"@, b)).push(("options"@, c));
    lemma_asks("insertOne"@, db, collection, i);
    lemma_asks("findOne"@, db, collection, f);
    lemma_asks("deleteOne"@, db, collection, f);
    lemma_asks("updateCollection"@, db, collection, w);
    lemma_asks("updateOne"@, db, collection, u);
    lemma_asks("replaceOne"@, db, collection, r);
    reveal_strlit("database_name");
    reveal_strlit("collectionName");
    reveal_strlit("document");
    reveal_strlit("filter");
    reveal_strlit("update");
    reveal_strlit("options");
    reveal_strlit("replacement");
    reveal_strlit("data");
    assert("database_name"@.len() == 13);
    assert("collectionName"@.len() == 14);
    assert("document"@.len() == 8);
    assert("filter"@.len() == 6);
    assert("update"@.len() == 6);
    assert("options"@.len() == 7);
    assert("replacement"@.len() == 11);
    assert("data"@.len() == 4);
    assert("filter"@[0] == 'f');
    assert("update"@[0] == 'u');
    lemma_read(i, 2, "document"@);
    lemma_read(f, 2, "filter"@);
    lemma_read(w, 2, "data"@);
    lemma_read(u, 2, "filter"@);
    lemma_read(u, 3, "update"@);
    lemma_read(u, 4, "options"@);
    lemma_read(r, 2, "filter"@);
    lemma_read(r, 3, "replacement"@);
    lemma_read(r, 4, "options"@);
}

/// A query asks with its filter, and with the options that are set and no
/// others.
pub proof fn lemma_client_asks_for_documents(
    db: Seq<char>,
    collection: Seq<char>,
    query: JsonView,
    o: OptionsView,
)
    ensures
        ({
            let m = find_message(db, collection, query, o);
            let p = field(m, "payload"@)->Some_0;
            &&& asks(m, "find"@, db, collection, p)
            &&& field(p, "filter"@) == Some(query)
            &&& field(p, "sort"@) == (match o.sort {
                Some(s) => Some(JsonView::Object(weights_entries(s))),
                None => None,
            })
            &&& field(p, "projection"@) == (match o.projection {
                Some(s) => Some(JsonView::Object(weights_entries(s))),
                None => None,
            })
            &&& field(p, "limit"@) == (match o.limit {
                Some(n) => Some(integer(n as int)),
                None => None,
            })
            &&& field(p, "skip"@) == (match o.skip {
                Some(n) => Some(integer(n as int)),
                None => None,
            })
        }),
{
    let f = find_payload(db, collection, query, o);
    lemma_asks("find"@, db, collection, f);
    reveal_strlit("database_name");
    reveal_strlit("collectionName");
    reveal_strlit("filter");
    reveal_strlit("sort");
    reveal_strlit("projection");
    reveal_strlit("limit");
    reveal_strlit("skip");
    assert("database_name"@.len() == 13);
    assert("collectionName"@.len() == 14);
    assert("filter"@.len() == 6);
    assert("sort"@.len() == 4);
    assert("projection"@.len() == 10);
    assert("limit"@.len() == 5);
    assert("skip"@.len() == 4);
    assert("skip"@[1] == 'k');
    assert("sort"@[1] == 'o');
    assert(f[2] == ("filter"@, query));
    lemma_read(f, 2, "filter"@);
    let s: int = if o.sort is Some {
        1
    } else {
        0
    };
    let p: int = if o.projection is Some {
        1
    } else {
        0
    };
    let l: int = if o.limit is Some {
        1
    } else {
        0
    };
    if o.sort is Some {
        assert(f[3].0 == "sort"@);
        lemma_read(f, 3, "sort"@);
    } else {
        lemma_key_at_is(f, "sort"@, f.len() as int);
    }
    if o.projection is Some {
        assert(f[3 + s].0 == "projection"@);
        lemma_read(f, 3 + s, "projection"@);
    } else {
        lemma_key_at_is(f, "projection"@, f.len() as int);
    }
    if o.limit is Some {
        assert(f[3 + s + p].0 == "limit"@);
        lemma_read(f, 3 + s + p, "limit"@);
    } else {
        lemma_key_at_is(f, "limit"@, f.len() as int);
    }
    if o.skip is Some {
        assert(f[3 + s + p + l].0 == "skip"@);
        lemma_read(f, 3 + s + p + l, "skip"@);
    } else {
        lemma_key_at_is(f, "skip"@, f.len() as int);
    }
}

/// Weights are sent by their names, the last one of each name.
pub proof fn lemma_weights_are_sent(w: Seq<(Seq<char>, i32)>, k: Seq<char>, n: i32)
    ensures
        lookup(weights_entries(w.push((k, n))), k) == Some(integer(n as int)),
        forall|other: Seq<char>|
            other != k ==> #[trigger] lookup(weights_entries(w.push((k, n))), other) == lookup(
                weights_entries(w),
                other,
            ),
        weights_entries(Seq::<(Seq<char>, i32)>::empty()).len() == 0,
{
    let v = w.push((k, n));
    assert(v.drop_last() == w);
    lemma_lookup_with_key(weights_entries(w), k, integer(n as int), k);
    assert forall|other: Seq<char>| other != k implies #[trigger] lookup(
        weights_entries(v),
        other,
    ) == lookup(weights_entries(w), other) by {
        lemma_lookup_with_key(weights_entries(w), k, integer(n as int), other);
    }
}

/// A new connection asks for the collections to have at hand, and a client can
/// ask what the server says of itself, both for its database.
pub proof fn lemma_client_asks_server(db: Seq<char>, collections: Seq<Seq<char>>, i: int)
    ensures
        field(precache_message(db, collections), "type"@) == Some(JsonView::String("precache"@)),
        field(precache_message(db, collections), "database_name"@) == Some(JsonView::String(db)),
        field(precache_message(db, collections), "collections"@) matches Some(JsonView::Array(a))
            && a.len() == collections.len() && (0 <= i < a.len() ==> a[i] == JsonView::String(
            collections[i],
        )),
        field(metadata_message(db), "type"@) == Some(JsonView::String("metadata"@)),
        field(metadata_message(db), "database_name"@) == Some(JsonView::String(db)),
{
    reveal_strlit("type");
    reveal_strlit("database_name");
    reveal_strlit("collections");
    assert("type"@.len() == 4);
    assert("database_name"@.len() == 13);
    assert("collections"@.len() == 11);
    let a = precache_message(db, collections)->Object_0;
    lemma_read(a, 0, "type"@);
    lemma_read(a, 1, "database_name"@);
    lemma_read(a, 2, "collections"@);
    let b = metadata_message(db)->Object_0;
    lemma_read(b, 0, "type"@);
    lemma_read(b, 1, "database_name"@);
}

/// An answer is what the response carries: its value where it is a success, and
/// its message where it is not.  A message that is neither a change nor a
/// response is ignored.
pub proof fn lemma_answers_are_read(msg: JsonView, json: Seq<char>, message: Seq<char>)
    requires
        field(msg, "kind"@) is None,
    ensures
        field(msg, "success"@) == Some(JsonView::Bool(true)) && field(msg, "response_json"@) == Some(
            JsonView::String(json),
        ) && field(msg, "message"@) == Some(JsonView::String(message)) ==> incoming_of(msg)
            == IncomingView::Answered(
            Ok(
                match parsed(json) {
                    Some(v) => v,
                    None => JsonView::Null,
                },
            ),
        ),
        field(msg, "success"@) == Some(JsonView::Bool(false)) && field(msg, "response_json"@) == Some(
            JsonView::String(json),
        ) && field(msg, "message"@) == Some(JsonView::String(message)) ==> incoming_of(msg)
            == IncomingView::Answered(Err(message)),
        field(msg, "success"@) == Some(JsonView::Bool(false)) && field(msg, "response_json"@) is None
            && field(msg, "message"@) is None ==> incoming_of(msg) == IncomingView::Answered(
            Err("Action failed"@),
        ),
        field(msg, "success"@) is None ==> incoming_of(msg) is Ignored,
{
}

/// An answer goes to the first waiting request that still wants one; those
/// before it are given up, and those behind it wait on.
pub proof fn lemma_answer_goes_to_first(pending: Seq<u64>, alive: Seq<u64>, i: int)
    requires
        0 <= i <= pending.len(),
        forall|j: int| 0 <= j < i ==> !alive.contains(#[trigger] pending[j]),
        i < pending.len() ==> alive.contains(pending[i]),
    ensures
        i < pending.len() ==> settled_request(pending, alive) == Some(pending[i]) && settled(
            pending,
            alive,
        ) == pending.skip(i + 1),
        i == pending.len() ==> settled_request(pending, alive) is None && settled(
            pending,
            alive,
        ).len() == 0,
{
    lemma_first_wanted(pending, alive, i);
}

proof fn lemma_first_wanted(pending: Seq<u64>, alive: Seq<u64>, i: int)
    requires
        0 <= i <= pending.len(),
        forall|j: int| 0 <= j < i ==> !alive.contains(#[trigger] pending[j]),
        i < pending.len() ==> alive.contains(pending[i]),
    ensures
        first_alive(pending, alive) == i,
    decreases i,
{
    if i > 0 {
        assert(!alive.contains(pending[0]));
        let rest = pending.drop_first();
        assert forall|j: int| 0 <= j < i - 1 implies !alive.contains(#[trigger] rest[j]) by {
            assert(rest[j] == pending[j + 1]);
        }
        lemma_first_wanted(rest, alive, i - 1);
    }
}

/// What a client does about its connection: it connects to the address that the
/// settings name, is ready once it is connected, sends and takes in messages as
/// they are, and waits to connect again when the connection ends.
pub proof fn lemma_connection_is_kept(
    c: ClientView,
    message: crate::json::Json,
    text: String,
    env: Seq<(Seq<char>, Seq<char>)>,
)
    requires
        !c.closed,
    ensures
        link_step(c, LinkEvent::Begin, env) == (
            c,
            LinkActionView::Connect { url: crate::url::url_of(env) },
        ),
        link_step(c, LinkEvent::Opened, env) == (
            ClientView { ready: true, outgoing: true, ..c },
            LinkActionView::Poll { outgoing: true },
        ),
        link_step(c, LinkEvent::Outgoing { message }, env) == (
            c,
            LinkActionView::Send { text: text_of(message@) },
        ),
        link_step(c, LinkEvent::Text { text }, env) == (c, LinkActionView::Dispatch { text: text@ }),
        link_step(c, LinkEvent::OutgoingClosed, env) == (
            ClientView { outgoing: false, ..c },
            LinkActionView::Poll { outgoing: false },
        ),
        link_step(c, LinkEvent::Tick, env) == (c, LinkActionView::Poll { outgoing: c.outgoing }),
        link_step(c, LinkEvent::Skipped, env) == (c, LinkActionView::Poll { outgoing: c.outgoing }),
        link_step(c, LinkEvent::Ended, env) == (
            ClientView { ready: false, pending: Seq::empty(), ..c },
            LinkActionView::Wait { rejected: c.pending, reason: "WebSocket disconnected"@ },
        ),
{
}

/// A request waits for its answer behind those that wait already; its message
/// waits for a connection where there is none.  A client that is closed has
/// nothing waiting and keeps nothing.
pub proof fn lemma_requests_wait(c: ClientView, request: u64, message: JsonView)
    ensures
        submitted(c, request, message).pending == c.pending.push(request),
        c.ready ==> submitted(c, request, message).offline == c.offline,
        !c.ready ==> submitted(c, request, message).offline == c.offline.push(message),
        submitted(c, request, message).cache == c.cache,
        submitted(c, request, message).listeners == c.listeners,
        closed_client(c).closed && !closed_client(c).ready,
        closed_client(c).pending.len() == 0 && closed_client(c).cache.len() == 0,
{
}

proof fn lemma_others_filter(
    docs: Seq<JsonView>,
    a: Option<Seq<char>>,
    b: Option<Seq<char>>,
)
    ensures
        others(docs, a, b) == docs.filter(|d: JsonView| id_text(d) != a && id_text(d) != b),
    decreases docs.len(),
{
    reveal(Seq::filter);
    if docs.len() > 0 {
        lemma_others_filter(docs.drop_last(), a, b);
    }
}

/// A change that is told of a collection.
pub open spec fn change(
    event: Seq<char>,
    collection: Seq<char>,
    before: Option<JsonView>,
    after: Option<JsonView>,
) -> ChangeView {
    ChangeView { category: "collection"@, collection_name: collection, event, before, after }
}

/// The kept result of all documents of a collection after a change: a new or
/// changed document stands first and once, a deleted one is gone, and all others
/// stay in their order.  What is kept of other queries on the collection is given
/// up, and so is everything of it after any other change; what is kept of other
/// collections stays.
pub proof fn lemma_kept_result_follows(
    e: EntryView,
    collection: Seq<char>,
    doc: JsonView,
    old_doc: JsonView,
    event: Seq<char>,
)
    requires
        id_text(doc) is Some,
        id_text(old_doc) == id_text(doc),
    ensures
        e.collection_name != collection ==> refreshed(
            e,
            change(event, collection, Some(old_doc), Some(doc)),
        ) == Some(e),
        e.collection_name == collection && !is_snapshot(e) ==> refreshed(
            e,
            change(event, collection, Some(old_doc), Some(doc)),
        ) is None,
        e.collection_name == collection && is_snapshot(e) ==> {
            let rest = e.result.filter(|d: JsonView| id_text(d) != id_text(doc));
            let first = EntryView { result: limited(seq![doc] + rest, e.options.limit), ..e };
            &&& refreshed(e, change("insertOne"@, collection, None, Some(doc))) == Some(first)
            &&& refreshed(e, change("updateOne"@, collection, Some(old_doc), Some(doc))) == Some(first)
            &&& refreshed(e, change("replaceOne"@, collection, Some(old_doc), Some(doc))) == Some(first)
            &&& refreshed(e, change("deleteOne"@, collection, Some(doc), None)) == Some(
                EntryView { result: rest, ..e },
            )
            &&& event != "insertOne"@ && event != "updateOne"@ && event != "replaceOne"@ && event
                != "deleteOne"@ ==> refreshed(
                e,
                change(event, collection, Some(old_doc), Some(doc)),
            ) is None
        },
{
    reveal_strlit("insertOne");
    reveal_strlit("updateOne");
    reveal_strlit("replaceOne");
    reveal_strlit("deleteOne");
    assert("insertOne"@.len() == 9);
    assert("updateOne"@.len() == 9);
    assert("replaceOne"@.len() == 10);
    assert("deleteOne"@.len() == 9);
    assert("deleteOne"@[0] == 'd');
    assert("insertOne"@[0] == 'i');
    assert("updateOne"@[0] == 'u');
    let id = id_text(doc);
    lemma_others_filter(e.result, id, id);
    let p = |d: JsonView| id_text(d) != id && id_text(d) != id;
    let q = |d: JsonView| id_text(d) != id;
    assert(p =~= q);
}

/// As many documents as a limit allows are the first ones of a list.
pub proof fn lemma_limit_keeps_first(docs: Seq<JsonView>, n: i64)
    ensures
        limited(docs, None) == docs,
        0 < n < docs.len() ==> limited(docs, Some(n)) == docs.take(n as int),
        n >= docs.len() ==> limited(docs, Some(n)) == docs,
        n <= 0 ==> limited(docs, Some(n)).len() == 0,
{
}

/// A kept result is that of all documents where its query asks for nothing and
/// its options neither sort, nor project, nor skip.
pub proof fn lemma_snapshots_are_known(
    key: Seq<char>,
    collection: Seq<char>,
    query: JsonView,
    options: OptionsView,
    result: Seq<JsonView>,
)
    ensures
        is_snapshot(
            EntryView {
                key,
                collection_name: collection,
                query: JsonView::Object(Seq::empty()),
                options: no_options(),
                result,
            },
        ),
        (query matches JsonView::Object(o) && o.len() > 0) || options.sort is Some
            || options.projection is Some || (options.skip matches Some(n) && n != 0) ==> !is_snapshot(
            EntryView { key, collection_name: collection, query, options, result },
        ),
{
}

/// Queries are told apart by their collection, their filter and their options.
pub proof fn lemma_queries_are_told_apart(
    a: Seq<char>,
    p: JsonView,
    o: OptionsView,
    b: Seq<char>,
    q: JsonView,
    u: OptionsView,
)
    requires
        find_key_value(a, p, o) == find_key_value(b, q, u),
    ensures
        a == b,
        p == q,
        o.limit == u.limit,
        o.skip == u.skip,
        o.sort is Some <==> u.sort is Some,
        o.projection is Some <==> u.projection is Some,
{
    let x = find_key_value(a, p, o)->Object_0;
    let y = find_key_value(b, q, u)->Object_0;
    assert(x[0].1 == y[0].1 && x[1].1 == y[1].1 && x[2].1 == y[2].1);
    let v = options_json(o)->Object_0;
    let w = options_json(u)->Object_0;
    assert(options_json(o) == options_json(u));
    assert(v[0].1 == w[0].1 && v[1].1 == w[1].1 && v[2].1 == w[2].1 && v[3].1 == w[3].1);
}

/// What a client makes known of its own changes: an inserted document with the id
/// that it was given, a replaced one with the id that the filter asked for or the
/// one that was given, and the id of a deleted one; nothing where nothing
/// happened.
pub proof fn lemma_own_changes_are_known(
    collection: Seq<char>,
    o: Seq<(Seq<char>, JsonView)>,
    id: JsonView,
    modified: int,
    upserted: int,
    k: Seq<char>,
)
    requires
        forall|i: int| 0 <= i < o.len() ==> (#[trigger] o[i]).0 != "_id"@,
    ensures
        ({
            let c = insert_change(collection, JsonView::Object(o), Some(id));
            &&& c.category == "collection"@ && c.collection_name == collection
            &&& c.event == "insertOne"@ && c.before is None
            &&& c.after matches Some(d) && field(d, "_id"@) == Some(id) && (k != "_id"@ ==> field(d, k)
                == lookup(o, k))
        }),
        ({
            let by_id = JsonView::Object(seq![("_id"@, id)]);
            let c = replace_change(
                collection,
                by_id,
                JsonView::Object(o),
                modified,
                upserted,
                None,
            );
            if modified > 0 || upserted > 0 {
                c matches Some(x) && x.collection_name == collection && x.event == "replaceOne"@
                    && x.before == Some(by_id) && (x.after matches Some(d) && field(d, "_id"@) == Some(
                    id,
                ) && (k != "_id"@ ==> field(d, k) == lookup(o, k)))
            } else {
                c is None
            }
        }),
        ({
            let by_id = JsonView::Object(seq![("_id"@, id)]);
            let c = delete_change(collection, by_id, modified);
            if modified > 0 {
                c matches Some(x) && x.collection_name == collection && x.event == "deleteOne"@
                    && x.before == Some(by_id) && x.after is None
            } else {
                c is None
            }
        }),
{
    lemma_key_at_is(o, "_id"@, o.len() as int);
    lemma_lookup_with_key(o, "_id"@, id, "_id"@);
    lemma_lookup_with_key(o, "_id"@, id, k);
    lemma_key_at_is(seq![("_id"@, id)], "_id"@, 0);
}

/// After an update that changed or added something nothing is kept of its
/// collection, and everything of the others; after one that did not, everything
/// is kept.
pub proof fn lemma_update_gives_up_kept(
    cache: Seq<EntryView>,
    collection: Seq<char>,
    modified: int,
    upserted: int,
)
    ensures
        modified > 0 || upserted > 0 ==> kept_after_update(cache, collection, modified, upserted)
            == cache.filter(|e: EntryView| e.collection_name != collection),
        modified <= 0 && upserted <= 0 ==> kept_after_update(cache, collection, modified, upserted)
            == cache,
    decreases cache.len(),
{
    lemma_without_filter(cache, collection);
}

proof fn lemma_without_filter(cache: Seq<EntryView>, collection: Seq<char>)
    ensures
        without_collection(cache, collection) == cache.filter(
            |e: EntryView| e.collection_name != collection,
        ),
    decreases cache.len(),
{
    reveal(Seq::filter);
    if cache.len() > 0 {
        lemma_without_filter(cache.drop_last(), collection);
    }
}

/// The documents of an answer are those of its list, or the one that it is.
pub proof fn lemma_rows_are_read(v: JsonView, a: Seq<JsonView>)
    ensures
        rows_of(JsonView::Array(a)) == a,
        !(v is Array) ==> rows_of(v) == seq![v],
{
}

/// The collections to have at hand are those that were there and those that were
/// added, each once, and none without a name.
pub proof fn lemma_collections_are_joined(
    names: Seq<Seq<char>>,
    more: Seq<Seq<char>>,
    n: Seq<char>,
)
    requires
        names.no_duplicates(),
    ensures
        joined_names(names, more).contains(n) <==> names.contains(n) || (more.contains(n) && n.len() > 0),
        joined_names(names, more).no_duplicates(),
    decreases more.len(),
{
    if more.len() > 0 {
        let d = more.drop_last();
        lemma_collections_are_joined(names, d, n);
        lemma_collections_are_joined(names, d, more.last());
        let head = joined_names(names, d);
        let last = more.last();
        assert(more.contains(n) <==> d.contains(n) || n == last) by {
            if more.contains(n) {
                let i = choose|i: int| 0 <= i < more.len() && more[i] == n;
                if i < d.len() {
                    assert(d[i] == n);
                }
            }
            if d.contains(n) {
                let i = choose|i: int| 0 <= i < d.len() && d[i] == n;
                assert(more[i] == n);
            }
            if n == last {
                assert(more[more.len() - 1] == n);
            }
        }
        let all = head.push(last);
        assert(all.contains(n) <==> head.contains(n) || n == last) by {
            if all.contains(n) {
                let i = choose|i: int| 0 <= i < all.len() && all[i] == n;
                if i < head.len() {
                    assert(head[i] == n);
                }
            }
            if head.contains(n) {
                let i = choose|i: int| 0 <= i < head.len() && head[i] == n;
                assert(all[i] == n);
            }
            if n == last {
                assert(all[head.len() as int] == n);
            }
        }
    }
}

/// A new client is of its database, asks for the named collections, and has
/// nothing waiting and nothing kept.
pub proof fn lemma_new_client(db: Seq<char>, collections: Seq<Seq<char>>)
    ensures
        ({
            let c = new_client(db, collections);
            &&& c.database_name == db
            &&& c.precache == collections.filter(|n: Seq<char>| n.len() > 0)
            &&& !c.ready && !c.closed && c.outgoing
            &&& c.pending.len() == 0 && c.offline.len() == 0 && c.listeners.len() == 0 && c.cache.len() == 0
        }),
{
    lemma_nonempty(collections);
}

proof fn lemma_nonempty(names: Seq<Seq<char>>)
    ensures
        nonempty_names(names) == names.filter(|n: Seq<char>| n.len() > 0),
    decreases names.len(),
{
    reveal(Seq::filter);
    if names.len() > 0 {
        lemma_nonempty(names.drop_last());
    }
}

/// What is kept after a change of a collection is what was kept, each result
/// refreshed or given up on its own, in the same order; other changes leave it
/// alone.
pub proof fn lemma_results_are_refreshed(cache: Seq<EntryView>, e: EntryView, c: ChangeView)
    ensures
        c.category == "collection"@ ==> after_change(cache.push(e), c) == (match refreshed(e, c) {
            Some(f) => after_change(cache, c).push(f),
            None => after_change(cache, c),
        }),
        after_change(Seq::empty(), c).len() == 0,
        c.category != "collection"@ ==> after_change(cache, c) == cache,
{
    assert(cache.push(e).drop_last() == cache);
}

/// A request comes to what it is answered; one that is not answered fails.
pub proof fn lemma_requests_come_to_an_end(v: crate::json::Json, e: String)
    ensures
        request_result(RequestEnd::Answered { payload: Ok(v) }) == Ok::<JsonView, Seq<char>>(v@),
        request_result(RequestEnd::Answered { payload: Err(e) }) == Err::<JsonView, Seq<char>>(e@),
        request_result(RequestEnd::Cancelled) is Err,
        request_result(RequestEnd::TimedOut) is Err,
{
}

} // verus!
