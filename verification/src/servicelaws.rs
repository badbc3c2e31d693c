//! How requests are answered: which go where, which answers are cached and given
//! up again, and what clients are told of databases.

use crate::changelaws::has_counts;
use crate::collection::{caching_all, EffectView};
use crate::database::{database_event, database_reply, DatabaseEffectView, DatabasePlanView};
use crate::json::JsonView;
use crate::keys::covers;
use crate::object::{field, lemma_key_at_is};
use crate::querylaws::{integer, lemma_text_order, precedes};
use crate::request::{
    cache_name, cached_database_pattern, cached_list_pattern, fingerprint_value, is_about_database, is_cacheable,
    is_mutating, lemma_cache_patterns_cover, nonempty_text, or_empty, payload_of, response_value, scope_database,
    tells_of_change, wanted_database, RequestView, ResponseView,
};
use crate::server::{
    cache_commands, route_of, stale_patterns, CacheCommandView, RouteView,
};
use vstd::prelude::*;

verus! {

/// A request for an operation.
pub open spec fn operation(
    category: Seq<char>,
    func: Seq<char>,
    payload: JsonView,
    message: Option<Seq<char>>,
) -> RequestView {
    RequestView {
        msg_type: "action"@,
        category: Some(category),
        function_name: Some(func),
        payload: Some(payload),
        database_name: message,
        collections: None,
    }
}

proof fn lemma_type_words()
    ensures
        "action"@ != "precache"@,
        "action"@ != "metadata"@,
        "action"@ != "list_databases"@,
        "action"@ != "list_collections"@,
        "collection"@ != "database"@,
        "request"@ != "precache"@,
        "request"@ != "metadata"@,
        "request"@ != "list_databases"@,
        "request"@ != "list_collections"@,
        "metadata"@ != "precache"@,
        "list_databases"@ != "precache"@,
        "list_collections"@ != "precache"@,
        "metadata"@ != "list_databases"@,
        "metadata"@ != "list_collections"@,
        "list_databases"@ != "list_collections"@,
        "metadata"@ != "action"@ && "metadata"@ != "request"@,
        "list_databases"@ != "action"@ && "list_databases"@ != "request"@,
        "list_collections"@ != "action"@ && "list_collections"@ != "request"@,
        "precache"@ != "action"@ && "precache"@ != "request"@,
{
    reveal_strlit("action");
    reveal_strlit("request");
    reveal_strlit("precache");
    reveal_strlit("metadata");
    reveal_strlit("list_databases");
    reveal_strlit("list_collections");
    reveal_strlit("collection");
    reveal_strlit("database");
    assert("action"@.len() == 6);
    assert("request"@.len() == 7);
    assert("precache"@.len() == 8);
    assert("metadata"@.len() == 8);
    assert("list_databases"@.len() == 14);
    assert("list_collections"@.len() == 16);
    assert("collection"@.len() == 10);
    assert("database"@.len() == 8);
    assert("database"@[0] == 'd');
    assert("metadata"@[0] == 'm');
    assert("precache"@[0] == 'p');
}

/// The answers to requests that only read are cached, and no others: queries and
/// exports, lists, and what the server says of itself.
pub proof fn lemma_reads_are_cached(
    prefix: Seq<char>,
    func: Seq<char>,
    payload: JsonView,
    message: Option<Seq<char>>,
    r: RequestView,
)
    ensures
        cache_name(prefix, operation("collection"@, func, payload, message)) is Some <==> (func == "find"@ || func == "findOne"@ || func == "exportCollection"@),
        cache_name(prefix, operation("database"@, func, payload, message)) is Some <==> func
            == "exportDatabase"@,
        r.msg_type == "metadata"@ || r.msg_type == "list_databases"@ || r.msg_type
            == "list_collections"@ ==> cache_name(prefix, r) is Some,
        r.msg_type == "precache"@ ==> cache_name(prefix, r) is None,
{
    lemma_type_words();
}

/// The requests that ask for a change are these.
pub proof fn lemma_changes_are_known(
    func: Seq<char>,
    payload: JsonView,
    message: Option<Seq<char>>,
    r: RequestView,
)
    ensures
        is_mutating(operation("collection"@, func, payload, message)) <==> (func == "insertOne"@ || func == "updateOne"@ || func == "replaceOne"@ || func == "deleteOne"@ || func == "deleteMany"@ || func == "updateCollection"@ || func == "importCollection"@),
        is_mutating(operation("database"@, func, payload, message)) <==> (func == "createDatabase"@ || func == "deleteDatabase"@ || func == "renameDatabase"@ || func == "createCollection"@ || func == "deleteCollection"@ || func == "renameCollection"@ || func == "importDatabase"@),
        r.msg_type == "metadata"@ || r.msg_type == "list_databases"@ || r.msg_type
            == "list_collections"@ || r.msg_type == "precache"@ ==> !is_mutating(r),
{
    lemma_type_words();
}

/// Two operations are told apart in the cache by their category, their function
/// and everything in their payloads.
pub proof fn lemma_requests_are_told_apart(
    category: Seq<char>,
    a: Seq<char>,
    p: JsonView,
    b: Seq<char>,
    q: JsonView,
    message: Option<Seq<char>>,
)
    requires
        is_cacheable(operation(category, a, p, message)),
        is_cacheable(operation(category, b, q, message)),
        fingerprint_value(operation(category, a, p, message)) == fingerprint_value(
            operation(category, b, q, message),
        ),
    ensures
        a == b,
        p == q,
{
    lemma_type_words();
    let x = fingerprint_value(operation(category, a, p, message))->Some_0->Object_0;
    let y = fingerprint_value(operation(category, b, q, message))->Some_0->Object_0;
    assert(x[2].1 == y[2].1 && x[3].1 == y[3].1);
}

/// Requests go where their type and category say; an operation on a collection
/// needs a database, and what is not known is refused.
pub proof fn lemma_requests_are_routed(
    func: Seq<char>,
    payload: JsonView,
    db: Seq<char>,
    category: Seq<char>,
    r: RequestView,
)
    requires
        db.len() > 0,
    ensures
        field(payload, "database_name"@) == Some(JsonView::String(db)) ==> route_of(
            operation("collection"@, func, payload, None),
        ) == (RouteView::Collection { db, function: func }),
        field(payload, "database_name"@) is None ==> route_of(
            operation("collection"@, func, payload, Some(db)),
        ) == (RouteView::Collection { db, function: func }),
        field(payload, "database_name"@) is None ==> (route_of(
            operation("collection"@, func, payload, None),
        ) matches RouteView::Respond(e) && !e.success && e.message
            == "database_name missing in payload"@),
        route_of(operation("database"@, func, payload, None)) == (RouteView::Database {
            function: func,
        }),
        category != "collection"@ && category != "database"@ ==> (route_of(
            operation(category, func, payload, None),
        ) matches RouteView::Respond(e) && !e.success && e.message == "Unknown category"@),
        r.msg_type == "list_databases"@ ==> route_of(r) is ListDatabases,
        r.msg_type == "list_collections"@ && r.database_name == Some(db) ==> route_of(r) == (
        RouteView::ListCollections { db }),
        r.msg_type == "precache"@ && r.database_name == Some(db) && r.collections is Some ==> route_of(
            r,
        ) == (RouteView::Precache { db, collections: r.collections->Some_0 }),
        (r.msg_type == "list_collections"@ || r.msg_type == "precache"@) && r.database_name is None
            ==> (route_of(r) matches RouteView::Respond(e) && !e.success && e.message
            == "database_name is required"@),
        r.msg_type == "metadata"@ ==> (route_of(r) matches RouteView::Respond(e) && e.success),
        !seq![
            "action"@,
            "request"@,
            "precache"@,
            "metadata"@,
            "list_databases"@,
            "list_collections"@,
        ].contains(r.msg_type) ==> (route_of(r) matches RouteView::Respond(e) && !e.success && e.message
            == "Unknown type"@),
{
    lemma_type_words();
    let known = seq![
        "action"@,
        "request"@,
        "precache"@,
        "metadata"@,
        "list_databases"@,
        "list_collections"@,
    ];
    assert(known[0] == "action"@ && known[1] == "request"@ && known[2] == "precache"@);
    assert(known[3] == "metadata"@ && known[4] == "list_databases"@ && known[5] == "list_collections"@);
}

/// A result tells of a change exactly by its counts: an update by what was
/// modified or added, a deletion by what was deleted.
pub proof fn lemma_counts_tell(
    result: JsonView,
    matched: int,
    modified: int,
    upserted: int,
    id: JsonView,
    deleted: int,
)
    requires
        0 <= modified <= i64::MAX,
        0 <= upserted <= i64::MAX,
        0 <= deleted <= i64::MAX,
    ensures
        has_counts(result, matched, modified, upserted, id) ==> (tells_of_change(
            "collection"@,
            "updateOne"@,
            Some(result),
        ) <==> modified > 0 || upserted > 0) && (tells_of_change(
            "collection"@,
            "replaceOne"@,
            Some(result),
        ) <==> modified > 0 || upserted > 0),
        field(result, "deletedCount"@) == Some(integer(deleted)) ==> (tells_of_change(
            "collection"@,
            "deleteOne"@,
            Some(result),
        ) <==> deleted > 0) && (tells_of_change("collection"@, "deleteMany"@, Some(result)) <==> deleted
            > 0),
        field(result, "deleted"@) == Some(JsonView::Bool(false)) ==> !tells_of_change(
            "database"@,
            "deleteCollection"@,
            Some(result),
        ),
        field(result, "deleted"@) == Some(JsonView::Bool(true)) ==> tells_of_change(
            "database"@,
            "deleteCollection"@,
            Some(result),
        ),
{
    reveal_strlit("updateOne");
    reveal_strlit("replaceOne");
    reveal_strlit("deleteOne");
    reveal_strlit("deleteMany");
    reveal_strlit("updateCollection");
    reveal_strlit("deleteCollection");
    reveal_strlit("deleteDatabase");
    reveal_strlit("collection");
    reveal_strlit("database");
    assert("updateOne"@.len() == 9);
    assert("replaceOne"@.len() == 10);
    assert("deleteOne"@.len() == 9);
    assert("deleteMany"@.len() == 10);
    assert("updateCollection"@.len() == 16);
    assert("deleteCollection"@.len() == 16);
    assert("deleteDatabase"@.len() == 14);
    assert("collection"@.len() == 10);
    assert("database"@.len() == 8);
    assert("collection"@[0] == 'c');
    assert("deleteCollection"@[0] == 'd');
    assert("deleteMany"@[0] == 'd');
    assert("deleteOne"@[0] == 'd');
    assert("replaceOne"@[0] == 'r');
    assert("updateCollection"@[0] == 'u');
    assert("updateOne"@[0] == 'u');
}

/// The answer to a request that reads is kept under its name for as long as is
/// set, word for word; an answer that is an error is not kept.
pub proof fn lemma_answer_is_kept(
    prefix: Seq<char>,
    ttl: u64,
    r: RequestView,
    response: ResponseView,
)
    requires
        is_cacheable(r),
    ensures
        response.success ==> cache_commands(prefix, ttl, r, response) == seq![
            CacheCommandView::Keep {
                key: cache_name(prefix, r)->Some_0,
                ttl_seconds: ttl,
                json: response.response_json,
            },
        ],
        !response.success ==> cache_commands(prefix, ttl, r, response).len() == 0,
{
    assert(!is_mutating(r)) by {
        if is_mutating(r) {
            crate::request::lemma_changes_are_not_cached(r);
        }
    }
    let none = Seq::<Seq<char>>::empty();
    assert(stale_patterns(prefix, r, response) == none);
    assert(none.map_values(|p: Seq<char>| CacheCommandView::Clear { pattern: p }).len() == 0);
}

/// A change clears no cached answer about a database that it does not name, and
/// the lists of databases only where it changes which there are.
pub proof fn lemma_other_answers_stay(
    prefix: Seq<char>,
    func: Seq<char>,
    category: Seq<char>,
    payload: JsonView,
    message: Option<Seq<char>>,
    response: ResponseView,
    cached: RequestView,
    i: int,
)
    requires
        is_cacheable(cached),
        is_about_database(cached) ==> wanted_database(payload, message) != Some(
            scope_database(cached),
        ) && nonempty_text(payload, "new_database_name"@) != Some(scope_database(cached)),
        cached.msg_type == "list_databases"@ ==> !(category == "database"@ && (func
            == "createDatabase"@ || func == "deleteDatabase"@ || func == "renameDatabase"@)),
        0 <= i < stale_patterns(
            prefix,
            operation(category, func, payload, message),
            response,
        ).len(),
    ensures
        !covers(
            stale_patterns(prefix, operation(category, func, payload, message), response)[i],
            cache_name(prefix, cached)->Some_0,
        ),
{
    let r = operation(category, func, payload, message);
    let db = or_empty(wanted_database(payload_of(r), r.database_name));
    let new = or_empty(nonempty_text(payload_of(r), "new_database_name"@));
    lemma_type_words();
    lemma_cache_patterns_cover(prefix, cached, db);
    lemma_cache_patterns_cover(prefix, cached, new);
    let p = stale_patterns(prefix, r, response);
    assert(p[i] == cached_list_pattern(prefix) || (p[i] == cached_database_pattern(prefix, db) && db.len()
        > 0) || (p[i] == cached_database_pattern(prefix, new) && new.len() > 0));
}

proof fn lemma_read(o: Seq<(Seq<char>, JsonView)>, i: int, k: Seq<char>)
    requires
        0 <= i < o.len(),
        o[i].0 == k,
        forall|j: int| 0 <= j < i ==> (#[trigger] o[j]).0 != k,
    ensures
        field(JsonView::Object(o), k) == Some(o[i].1),
{
    lemma_key_at_is(o, k, i);
}

/// A response says whether it is one, with its value and its message.
pub proof fn lemma_response_says(r: ResponseView)
    ensures
        field(response_value(r), "success"@) == Some(JsonView::Bool(r.success)),
        field(response_value(r), "response_json"@) == Some(JsonView::String(r.response_json)),
        field(response_value(r), "message"@) == Some(JsonView::String(r.message)),
        response_value(r)->Object_0.len() == 3,
{
    reveal_strlit("success");
    reveal_strlit("response_json");
    reveal_strlit("message");
    assert("success"@.len() == 7);
    assert("response_json"@.len() == 13);
    assert("message"@.len() == 7);
    assert("message"@[0] == 'm');
    assert("success"@[0] == 's');
    let o = response_value(r)->Object_0;
    lemma_read(o, 0, "success"@);
    lemma_read(o, 1, "response_json"@);
    lemma_read(o, 2, "message"@);
}

/// Whether an effect tells of a change to a database.
pub open spec fn tells_of_database(
    e: DatabaseEffectView,
    event: Seq<char>,
    db: Seq<char>,
    collection: Option<Seq<char>>,
    before: JsonView,
    after: JsonView,
) -> bool {
    e matches DatabaseEffectView::Emit { event: name, payload } && name == event && field(
        payload,
        "database_name"@,
    ) == Some(JsonView::String(db)) && field(payload, "collectionName"@) == (match collection {
        Some(c) => Some(JsonView::String(c)),
        None => None,
    }) && field(payload, "before"@) == Some(before) && field(payload, "after"@) == Some(after)
}

proof fn lemma_database_event(
    event: Seq<char>,
    db: Seq<char>,
    collection: Option<Seq<char>>,
    before: JsonView,
    after: JsonView,
    summary: Seq<(Seq<char>, JsonView)>,
)
    ensures
        tells_of_database(
            DatabaseEffectView::Emit {
                event,
                payload: database_event(db, collection, before, after, summary),
            },
            event,
            db,
            collection,
            before,
            after,
        ),
{
    reveal_strlit("database_name");
    reveal_strlit("collectionName");
    reveal_strlit("before");
    reveal_strlit("after");
    reveal_strlit("summary");
    assert("database_name"@.len() == 13);
    assert("collectionName"@.len() == 14);
    assert("before"@.len() == 6);
    assert("after"@.len() == 5);
    assert("summary"@.len() == 7);
    let o = database_event(db, collection, before, after, summary)->Object_0;
    assert(o[0].0 == "database_name"@);
    lemma_read(o, 0, "database_name"@);
    match collection {
        Some(c) => {
            assert(o[1] == ("collectionName"@, JsonView::String(c)));
            assert(o[2] == ("before"@, before) && o[3] == ("after"@, after));
            lemma_read(o, 1, "collectionName"@);
            lemma_read(o, 2, "before"@);
            lemma_read(o, 3, "after"@);
        },
        None => {
            assert(o[1] == ("before"@, before) && o[2] == ("after"@, after));
            assert(o[3].0 == "summary"@ && o.len() == 4);
            lemma_read(o, 1, "before"@);
            lemma_read(o, 2, "after"@);
            lemma_key_at_is(o, "collectionName"@, 4);
        },
    }
}

/// Every operation on a database is told of with the name of the operation, the
/// database and collection that it is about, and the old and new name where it
/// gives one; what was kept of what is gone or renamed is given up, and nothing
/// else.
pub proof fn lemma_database_operations_are_told(
    prefix: Seq<char>,
    existed: bool,
    deleted: bool,
    loaded: Seq<(Seq<char>, Seq<JsonView>)>,
    db: Seq<char>,
    from: Seq<char>,
    to: Seq<char>,
    validator: Option<JsonView>,
    initial: Option<Seq<char>>,
    mode: Seq<char>,
)
    ensures
        ({
            let e = database_reply(
                prefix,
                DatabasePlanView::Create { db, initial },
                existed,
                deleted,
                loaded,
            ).effects;
            e.len() == 1 && tells_of_database(
                e[0],
                "createDatabase"@,
                db,
                None,
                JsonView::Null,
                JsonView::Null,
            )
        }),
        ({
            let e = database_reply(
                prefix,
                DatabasePlanView::Delete { db },
                existed,
                deleted,
                loaded,
            ).effects;
            e.len() == 3 && e[0] == (DatabaseEffectView::InvalidateDatabase { db })
                && e[1] is ClearIndexes && tells_of_database(
                e[2],
                "deleteDatabase"@,
                db,
                None,
                JsonView::Null,
                JsonView::Null,
            )
        }),
        ({
            let e = database_reply(
                prefix,
                DatabasePlanView::Rename { from, to },
                existed,
                deleted,
                loaded,
            ).effects;
            e.len() == 2 && e[0] == (DatabaseEffectView::InvalidateDatabase { db: from })
                && tells_of_database(
                e[1],
                "renameDatabase"@,
                to,
                None,
                JsonView::String(from),
                JsonView::String(to),
            )
        }),
        ({
            let e = database_reply(
                prefix,
                DatabasePlanView::CreateCollection { db, collection: from, validator },
                existed,
                deleted,
                loaded,
            ).effects;
            e.len() == 1 && tells_of_database(
                e[0],
                "createCollection"@,
                db,
                Some(from),
                JsonView::Null,
                JsonView::Null,
            )
        }),
        ({
            let e = database_reply(
                prefix,
                DatabasePlanView::DeleteCollection { db, collection: from },
                existed,
                deleted,
                loaded,
            ).effects;
            e.len() == 3 && e[0] == (DatabaseEffectView::InvalidateCollection {
                db,
                collection: from,
            }) && e[1] == (DatabaseEffectView::DropIndexes { db, collection: from })
                && tells_of_database(
                e[2],
                "deleteCollection"@,
                db,
                Some(from),
                JsonView::Null,
                JsonView::Null,
            )
        }),
        ({
            let e = database_reply(
                prefix,
                DatabasePlanView::RenameCollection { db, from, to },
                existed,
                deleted,
                loaded,
            ).effects;
            e.len() == 2 && e[0] == (DatabaseEffectView::InvalidateCollection {
                db,
                collection: from,
            }) && tells_of_database(
                e[1],
                "renameCollection"@,
                db,
                Some(to),
                JsonView::String(from),
                JsonView::String(to),
            )
        }),
        ({
            let e = database_reply(
                prefix,
                DatabasePlanView::Import { db, mode, incoming: loaded },
                existed,
                deleted,
                loaded,
            ).effects;
            e.len() == 2 && e[0] == (DatabaseEffectView::InvalidateDatabase { db })
                && tells_of_database(
                e[1],
                "importDatabase"@,
                db,
                None,
                JsonView::Null,
                JsonView::Null,
            )
        }),
{
    let null = JsonView::Null;
    let named = seq![("database_name"@, JsonView::String(db))];
    let renamed = crate::database::rename_entries(from, to);
    lemma_database_event("createDatabase"@, db, None, null, null, named);
    lemma_database_event("deleteDatabase"@, db, None, null, null, named);
    lemma_database_event(
        "renameDatabase"@,
        to,
        None,
        JsonView::String(from),
        JsonView::String(to),
        renamed,
    );
    lemma_database_event(
        "createCollection"@,
        db,
        Some(from),
        null,
        null,
        seq![("collectionName"@, JsonView::String(from))],
    );
    lemma_database_event(
        "deleteCollection"@,
        db,
        Some(from),
        null,
        null,
        seq![
            ("collectionName"@, JsonView::String(from)),
            ("deleted"@, JsonView::Bool(deleted)),
        ],
    );
    lemma_database_event(
        "renameCollection"@,
        db,
        Some(to),
        JsonView::String(from),
        JsonView::String(to),
        renamed,
    );
    lemma_database_event(
        "importDatabase"@,
        db,
        None,
        null,
        null,
        crate::database::import_summary(mode, !existed, loaded),
    );
}

/// What an operation on a database answers: that it was done, with the names it
/// was done to, whether what was to be deleted was there, and how much was
/// imported.
pub proof fn lemma_database_operations_answer(
    prefix: Seq<char>,
    existed: bool,
    deleted: bool,
    loaded: Seq<(Seq<char>, Seq<JsonView>)>,
    db: Seq<char>,
    from: Seq<char>,
    to: Seq<char>,
    mode: Seq<char>,
)
    requires
        loaded.len() <= u64::MAX,
    ensures
        ({
            let r = database_reply(
                prefix,
                DatabasePlanView::Create { db, initial: None },
                existed,
                deleted,
                loaded,
            ).result;
            field(r, "acknowledged"@) == Some(JsonView::Bool(true)) && field(r, "database_name"@) == Some(
                JsonView::String(db),
            )
        }),
        ({
            let r = database_reply(
                prefix,
                DatabasePlanView::DeleteCollection { db, collection: from },
                existed,
                deleted,
                loaded,
            ).result;
            field(r, "acknowledged"@) == Some(JsonView::Bool(true)) && field(r, "deleted"@) == Some(
                JsonView::Bool(deleted),
            )
        }),
        ({
            let r = database_reply(
                prefix,
                DatabasePlanView::Delete { db },
                existed,
                deleted,
                loaded,
            ).result;
            field(r, "acknowledged"@) == Some(JsonView::Bool(true)) && field(r, "deleted"@) == Some(
                JsonView::Bool(true),
            )
        }),
        ({
            let r = database_reply(
                prefix,
                DatabasePlanView::Rename { from, to },
                existed,
                deleted,
                loaded,
            ).result;
            field(r, "from"@) == Some(JsonView::String(from)) && field(r, "to"@) == Some(
                JsonView::String(to),
            )
        }),
        ({
            let r = database_reply(
                prefix,
                DatabasePlanView::RenameCollection { db, from, to },
                existed,
                deleted,
                loaded,
            ).result;
            field(r, "from"@) == Some(JsonView::String(from)) && field(r, "to"@) == Some(
                JsonView::String(to),
            )
        }),
        ({
            let r = database_reply(
                prefix,
                DatabasePlanView::Import { db, mode, incoming: loaded },
                existed,
                deleted,
                loaded,
            ).result;
            field(r, "database_name"@) == Some(JsonView::String(db)) && field(r, "mode"@) == Some(
                JsonView::String(mode),
            ) && field(r, "created"@) == Some(JsonView::Bool(!existed)) && field(
                r,
                "importedCollections"@,
            ) == Some(integer(loaded.len() as int))
        }),
{
    reveal_strlit("acknowledged");
    reveal_strlit("database_name");
    reveal_strlit("deleted");
    reveal_strlit("from");
    reveal_strlit("to");
    reveal_strlit("mode");
    reveal_strlit("created");
    reveal_strlit("importedCollections");
    assert("acknowledged"@.len() == 12);
    assert("database_name"@.len() == 13);
    assert("deleted"@.len() == 7);
    assert("from"@.len() == 4);
    assert("to"@.len() == 2);
    assert("mode"@.len() == 4);
    assert("created"@.len() == 7);
    assert("importedCollections"@.len() == 19);
    assert("created"@[0] == 'c');
    assert("deleted"@[0] == 'd');
    assert("from"@[0] == 'f');
    assert("mode"@[0] == 'm');
    let a = database_reply(
        prefix,
        DatabasePlanView::Create { db, initial: None },
        existed,
        deleted,
        loaded,
    ).result->Object_0;
    assert(a[1].0 == "database_name"@);
    lemma_read(a, 0, "acknowledged"@);
    lemma_read(a, 1, "database_name"@);
    let b = database_reply(
        prefix,
        DatabasePlanView::DeleteCollection { db, collection: from },
        existed,
        deleted,
        loaded,
    ).result->Object_0;
    assert(b[1].0 == "deleted"@);
    lemma_read(b, 0, "acknowledged"@);
    lemma_read(b, 1, "deleted"@);
    let c = database_reply(
        prefix,
        DatabasePlanView::Delete { db },
        existed,
        deleted,
        loaded,
    ).result->Object_0;
    assert(c[1].0 == "deleted"@);
    lemma_read(c, 0, "acknowledged"@);
    lemma_read(c, 1, "deleted"@);
    let d = database_reply(
        prefix,
        DatabasePlanView::Rename { from, to },
        existed,
        deleted,
        loaded,
    ).result->Object_0;
    assert(d[1].0 == "from"@ && d[2].0 == "to"@);
    lemma_read(d, 1, "from"@);
    lemma_read(d, 2, "to"@);
    let e = database_reply(
        prefix,
        DatabasePlanView::Import { db, mode, incoming: loaded },
        existed,
        deleted,
        loaded,
    ).result->Object_0;
    assert(e[1].0 == "database_name"@ && e[2].0 == "mode"@ && e[3].0 == "created"@);
    assert(e[4].0 == "importedCollections"@);
    lemma_read(e, 1, "database_name"@);
    lemma_read(e, 2, "mode"@);
    lemma_read(e, 3, "created"@);
    lemma_read(e, 4, "importedCollections"@);
}

/// What keeps documents keeps each under its id, in their order.
pub proof fn lemma_documents_are_kept(docs: Seq<JsonView>, ids: Seq<Seq<char>>, i: int)
    requires
        docs.len() == ids.len(),
        forall|j: int|
            0 <= j < docs.len() ==> field(#[trigger] docs[j], "_id"@) == Some(
                JsonView::String(ids[j]),
            ),
    ensures
        caching_all(docs).len() == docs.len(),
        0 <= i < docs.len() ==> caching_all(docs)[i] == (EffectView::CacheDoc {
            id: ids[i],
            doc: docs[i],
        }),
    decreases docs.len(),
{
    if docs.len() > 0 {
        let d = docs.drop_last();
        let n = docs.len() - 1;
        assert forall|j: int| 0 <= j < d.len() implies field(#[trigger] d[j], "_id"@) == Some(
            JsonView::String(ids.drop_last()[j]),
        ) by {
            assert(d[j] == docs[j]);
        }
        lemma_documents_are_kept(d, ids.drop_last(), i);
        assert(docs.last() == docs[n]);
    }
}

/// Names are told in the order of their characters.
pub proof fn lemma_names_are_in_order(s: Seq<Seq<char>>)
    ensures
        crate::text::in_order(s) <==> forall|i: int, j: int|
            0 <= i < j < s.len() ==> precedes(#[trigger] s[i], #[trigger] s[j]) || s[i] == s[j],
{
    assert forall|i: int, j: int| 0 <= i < j < s.len() implies (crate::text::text_order(
        #[trigger] s[i],
        #[trigger] s[j],
    ) <= 0) == (precedes(s[i], s[j]) || s[i] == s[j]) by {
        lemma_text_order(s[i], s[j]);
    }
}

/// A client that asks for collections to be at hand has every document of each of
/// them kept, collection by collection.
pub proof fn lemma_collections_are_at_hand(
    db: Seq<(Seq<char>, Seq<JsonView>)>,
    names: Seq<Seq<char>>,
    i: int,
    j: int,
)
    requires
        0 <= i < names.len(),
        0 <= j < db.len(),
        db[j].0 == names[i],
        forall|a: int, b: int| 0 <= a < b < db.len() ==> (#[trigger] db[a]).0 != (#[trigger] db[b]).0,
    ensures
        crate::server::precached(db, names).len() == names.len(),
        crate::server::precached(db, names)[i] == (names[i], caching_all(db[j].1)),
{
    crate::database::lemma_collection_at(db, names[i]);
    let n = crate::database::collection_at(db, names[i]) as int;
    if n < j {
        assert(db[n].0 != db[j].0);
    }
}

} // verus!
