//! How requests are answered, and how changes are told of.

use crate::collection::{caching_all, effect_views, Effect, EffectView};
use crate::database::{docs_in, Database};
use crate::json::{views, Json, JsonView, Numeral};
use crate::object::{
    field, lemma_lookup_with_key, lookup, nat_value, set_entry, string_view, text_value, with_key,
};
use crate::request::{
    asks_for_action, cache_name, cached_database_pattern, cached_list_pattern, database_name, error_of, error_response,
    indicates_mutation, is_action, is_mutating, is_mutating_request, no_entries, nonempty_text, opt_str,
    or_empty, payload_of, put, response_indicates_mutation, success_of, success_response, text_or_empty,
    wanted_database, RequestCacheState, RequestView, ResponseView, WsRequest, WsResponse,
};
use crate::select::copy_texts;
use crate::text::{in_order, owned, same_text, sort_texts, texts};
use crate::wire::{text_of, to_text};
use vstd::prelude::*;

verus! {

broadcast use crate::json::group_json_views;

/// The event that tells of a change.
pub open spec fn event_body(
    category: Seq<char>,
    event: Seq<char>,
    payload: JsonView,
    ts: u64,
) -> JsonView {
    match payload {
        JsonView::Object(o) => JsonView::Object(
            with_key(
                with_key(
                    with_key(
                        with_key(o, "kind"@, JsonView::String("change"@)),
                        "category"@,
                        JsonView::String(category),
                    ),
                    "event"@,
                    JsonView::String(event),
                ),
                "ts"@,
                JsonView::Number(Numeral::PosInt(ts)),
            ),
        ),
        _ => payload,
    }
}

/// The message that tells clients of a change: the event, and once more in the
/// form of a response.
pub open spec fn event_value(
    category: Seq<char>,
    event: Seq<char>,
    payload: JsonView,
    ts: u64,
) -> JsonView {
    let body = event_body(category, event, payload, ts);
    match body {
        JsonView::Object(o) => JsonView::Object(
            with_key(
                with_key(
                    with_key(o, "success"@, JsonView::Bool(true)),
                    "message"@,
                    JsonView::String("change_event"@),
                ),
                "response_json"@,
                body,
            ),
        ),
        _ => body,
    }
}

/// The event that tells of a change has the entries of what happened, and says
/// that it is a change, of which category and kind, and when; the message has
/// the entries of the event, and is a response with the event as its value.
pub proof fn lemma_event_form(
    category: Seq<char>,
    event: Seq<char>,
    o: Seq<(Seq<char>, JsonView)>,
    ts: u64,
    key: Seq<char>,
)
    ensures
        ({
            let body = event_body(category, event, JsonView::Object(o), ts);
            let message = event_value(category, event, JsonView::Object(o), ts);
            &&& field(body, key) == if key == "ts"@ {
                Some(JsonView::Number(Numeral::PosInt(ts)))
            } else if key == "event"@ {
                Some(JsonView::String(event))
            } else if key == "category"@ {
                Some(JsonView::String(category))
            } else if key == "kind"@ {
                Some(JsonView::String("change"@))
            } else {
                lookup(o, key)
            }
            &&& field(message, key) == if key == "response_json"@ {
                Some(body)
            } else if key == "message"@ {
                Some(JsonView::String("change_event"@))
            } else if key == "success"@ {
                Some(JsonView::Bool(true))
            } else {
                field(body, key)
            }
        }),
{
    let a = with_key(o, "kind"@, JsonView::String("change"@));
    let b = with_key(a, "category"@, JsonView::String(category));
    let c = with_key(b, "event"@, JsonView::String(event));
    let time = JsonView::Number(Numeral::PosInt(ts));
    let d = with_key(c, "ts"@, time);
    let e = with_key(d, "success"@, JsonView::Bool(true));
    let f = with_key(e, "message"@, JsonView::String("change_event"@));
    lemma_lookup_with_key(o, "kind"@, JsonView::String("change"@), key);
    lemma_lookup_with_key(a, "category"@, JsonView::String(category), key);
    lemma_lookup_with_key(b, "event"@, JsonView::String(event), key);
    lemma_lookup_with_key(c, "ts"@, time, key);
    lemma_lookup_with_key(d, "success"@, JsonView::Bool(true), key);
    lemma_lookup_with_key(e, "message"@, JsonView::String("change_event"@), key);
    lemma_lookup_with_key(f, "response_json"@, JsonView::Object(d), key);
}

/// Makes the messages that tell clients of changes.
pub struct Emitter;

impl Emitter {
    /// The message that tells clients of a change.
    pub fn emit(category: &str, event: &str, payload: Json, ts: u64) -> (r: String)
        ensures
            r@ == text_of(event_value(category@, event@, payload@, ts)),
    {
        let mut v = payload;
        match &mut v {
            Json::Object(o) => {
                set_entry(o, "kind", text_value("change"));
                set_entry(o, "category", text_value(category));
                set_entry(o, "event", text_value(event));
                set_entry(o, "ts", nat_value(ts));
            },
            _ => {},
        }
        assert(v@ == event_body(category@, event@, payload@, ts));
        let body = v.clone();
        match &mut v {
            Json::Object(o) => {
                set_entry(o, "success", Json::Bool(true));
                set_entry(o, "message", text_value("change_event"));
                set_entry(o, "response_json", body);
            },
            _ => {},
        }
        to_text(&v)
    }
}

/// A list of texts as a JSON array.
pub open spec fn text_array(s: Seq<Seq<char>>) -> JsonView {
    JsonView::Array(s.map_values(|t: Seq<char>| JsonView::String(t)))
}

/// A list of texts as a JSON array.
pub fn text_array_value(v: &Vec<String>) -> (r: Json)
    ensures
        r@ == text_array(texts(v@)),
{
    let ghost all = text_array(texts(v@))->Array_0;
    let mut a: Vec<Json> = Vec::new();
    let mut i: usize = 0;
    assert(views(a@) == all.take(0));
    while i < v.len()
        invariant
            i <= v@.len(),
            all == text_array(texts(v@))->Array_0,
            views(a@) == all.take(i as int),
        decreases v@.len() - i,
    {
        let ghost before = views(a@);
        a.push(Json::String(v[i].clone()));
        assert(views(a@) == before.push(all[i as int]));
        assert(all.take(i + 1) == all.take(i as int).push(all[i as int]));
        i = i + 1;
    }
    assert(all.take(i as int) == all);
    Json::Array(a)
}

/// The response that lists names in order.
pub fn names_response(names: Vec<String>) -> (r: WsResponse)
    ensures
        exists|s: Seq<Seq<char>>| #[trigger]
            in_order(s) && s.to_multiset() == texts(names@).to_multiset() && r@ == success_of(
                text_array(s),
            ),
{
    let sorted = sort_texts(names);
    let v = text_array_value(&sorted);
    let r = success_response(&v);
    assert(in_order(texts(sorted@)));
    r
}

/// The functions of the two categories.
pub open spec fn collection_functions() -> Seq<Seq<char>> {
    seq![
        "find"@,
        "findOne"@,
        "insertOne"@,
        "updateOne"@,
        "replaceOne"@,
        "deleteOne"@,
        "deleteMany"@,
        "updateCollection"@,
        "exportCollection"@,
        "importCollection"@,
    ]
}

pub open spec fn database_functions() -> Seq<Seq<char>> {
    seq![
        "createDatabase"@,
        "deleteDatabase"@,
        "renameDatabase"@,
        "createCollection"@,
        "deleteCollection"@,
        "renameCollection"@,
        "exportDatabase"@,
        "importDatabase"@,
    ]
}

pub open spec fn event_fields() -> Seq<Seq<char>> {
    seq![
        "event"@,
        "database_name"@,
        "collectionName"@,
        "before"@,
        "after"@,
        "summary"@,
        "ts"@,
    ]
}

/// What the server says of itself.
pub open spec fn metadata() -> JsonView {
    JsonView::Object(
        seq![
            ("api_format"@, JsonView::String("websocket.microservicedb.DatabaseService"@)),
            ("categories"@, text_array(seq!["collection"@, "database"@])),
            (
                "functions"@,
                JsonView::Object(
                    seq![
                        ("collection"@, text_array(collection_functions())),
                        ("database"@, text_array(database_functions())),
                    ],
                ),
            ),
            (
                "events"@,
                JsonView::Object(
                    seq![
                        ("kind"@, JsonView::String("change"@)),
                        ("categories"@, text_array(seq!["collection"@, "database"@])),
                        ("fields"@, text_array(event_fields())),
                    ],
                ),
            ),
            ("redis_first"@, JsonView::Bool(true)),
            ("auto_index"@, JsonView::Bool(true)),
            ("doc_cache"@, JsonView::Bool(true)),
        ],
    )
}

fn add_text(v: &mut Vec<String>, s: &str)
    ensures
        texts(final(v)@) == texts(old(v)@).push(s@),
{
    let ghost before = texts(v@);
    v.push(owned(s));
    assert(texts(v@) == before.push(s@));
}

fn no_texts() -> (r: Vec<String>)
    ensures
        texts(r@) == Seq::<Seq<char>>::empty(),
{
    let r: Vec<String> = Vec::new();
    assert(texts(r@) == Seq::<Seq<char>>::empty());
    r
}

fn categories_value() -> (r: Json)
    ensures
        r@ == text_array(seq!["collection"@, "database"@]),
{
    let mut v = no_texts();
    add_text(&mut v, "collection");
    add_text(&mut v, "database");
    assert(texts(v@) == seq!["collection"@, "database"@]);
    text_array_value(&v)
}

fn functions_value() -> (r: Json)
    ensures
        r@ == JsonView::Object(
            seq![
                ("collection"@, text_array(collection_functions())),
                ("database"@, text_array(database_functions())),
            ],
        ),
{
    let mut c = no_texts();
    add_text(&mut c, "find");
    add_text(&mut c, "findOne");
    add_text(&mut c, "insertOne");
    add_text(&mut c, "updateOne");
    add_text(&mut c, "replaceOne");
    add_text(&mut c, "deleteOne");
    add_text(&mut c, "deleteMany");
    add_text(&mut c, "updateCollection");
    add_text(&mut c, "exportCollection");
    add_text(&mut c, "importCollection");
    assert(texts(c@) == collection_functions());
    let mut d = no_texts();
    add_text(&mut d, "createDatabase");
    add_text(&mut d, "deleteDatabase");
    add_text(&mut d, "renameDatabase");
    add_text(&mut d, "createCollection");
    add_text(&mut d, "deleteCollection");
    add_text(&mut d, "renameCollection");
    add_text(&mut d, "exportDatabase");
    add_text(&mut d, "importDatabase");
    assert(texts(d@) == database_functions());
    let mut o = no_entries();
    put(&mut o, "collection", text_array_value(&c));
    put(&mut o, "database", text_array_value(&d));
    let r = Json::Object(o);
    assert(r@->Object_0 == seq![
        ("collection"@, text_array(collection_functions())),
        ("database"@, text_array(database_functions())),
    ]);
    r
}

fn events_value() -> (r: Json)
    ensures
        r@ == JsonView::Object(
            seq![
                ("kind"@, JsonView::String("change"@)),
                ("categories"@, text_array(seq!["collection"@, "database"@])),
                ("fields"@, text_array(event_fields())),
            ],
        ),
{
    let mut f = no_texts();
    add_text(&mut f, "event");
    add_text(&mut f, "database_name");
    add_text(&mut f, "collectionName");
    add_text(&mut f, "before");
    add_text(&mut f, "after");
    add_text(&mut f, "summary");
    add_text(&mut f, "ts");
    assert(texts(f@) == event_fields());
    let mut o = no_entries();
    put(&mut o, "kind", text_value("change"));
    put(&mut o, "categories", categories_value());
    put(&mut o, "fields", text_array_value(&f));
    let r = Json::Object(o);
    assert(r@->Object_0 == seq![
        ("kind"@, JsonView::String("change"@)),
        ("categories"@, text_array(seq!["collection"@, "database"@])),
        ("fields"@, text_array(event_fields())),
    ]);
    r
}

/// What the server says of itself.
pub fn metadata_value() -> (r: Json)
    ensures
        r@ == metadata(),
{
    let mut o = no_entries();
    put(&mut o, "api_format", text_value("websocket.microservicedb.DatabaseService"));
    put(&mut o, "categories", categories_value());
    put(&mut o, "functions", functions_value());
    put(&mut o, "events", events_value());
    put(&mut o, "redis_first", Json::Bool(true));
    put(&mut o, "auto_index", Json::Bool(true));
    put(&mut o, "doc_cache", Json::Bool(true));
    let r = Json::Object(o);
    assert(r@->Object_0 == metadata()->Object_0);
    r
}

/// Where a request goes.
#[derive(Debug)]
pub enum Route {
    Respond(WsResponse),
    Precache { db: String, collections: Vec<String> },
    Collection { db: String, function: String },
    Database { function: String },
    ListDatabases,
    ListCollections { db: String },
}

/// Where a request goes.
#[verifier::ext_equal]
pub enum RouteView {
    Respond(ResponseView),
    Precache { db: Seq<char>, collections: Seq<Seq<char>> },
    Collection { db: Seq<char>, function: Seq<char> },
    Database { function: Seq<char> },
    ListDatabases,
    ListCollections { db: Seq<char> },
}

impl View for Route {
    type V = RouteView;

    open spec fn view(&self) -> RouteView {
        match self {
            Route::Respond(r) => RouteView::Respond(r@),
            Route::Precache { db, collections } => RouteView::Precache {
                db: db@,
                collections: texts(collections@),
            },
            Route::Collection { db, function } => RouteView::Collection {
                db: db@,
                function: function@,
            },
            Route::Database { function } => RouteView::Database { function: function@ },
            Route::ListDatabases => RouteView::ListDatabases,
            Route::ListCollections { db } => RouteView::ListCollections { db: db@ },
        }
    }
}

/// Where a request goes.
pub open spec fn route_of(r: RequestView) -> RouteView {
    if r.msg_type == "precache"@ {
        if or_empty(r.database_name).len() == 0 {
            RouteView::Respond(error_of("database_name is required"@))
        } else {
            RouteView::Precache {
                db: or_empty(r.database_name),
                collections: match r.collections {
                    Some(c) => c,
                    None => Seq::empty(),
                },
            }
        }
    } else if is_action(r.msg_type) {
        if or_empty(r.category) == "collection"@ {
            match wanted_database(payload_of(r), r.database_name) {
                Some(db) => RouteView::Collection { db, function: or_empty(r.function_name) },
                None => RouteView::Respond(error_of("database_name missing in payload"@)),
            }
        } else if or_empty(r.category) == "database"@ {
            RouteView::Database { function: or_empty(r.function_name) }
        } else {
            RouteView::Respond(error_of("Unknown category"@))
        }
    } else if r.msg_type == "metadata"@ {
        RouteView::Respond(success_of(metadata()))
    } else if r.msg_type == "list_databases"@ {
        RouteView::ListDatabases
    } else if r.msg_type == "list_collections"@ {
        if or_empty(r.database_name).len() == 0 {
            RouteView::Respond(error_of("database_name is required"@))
        } else {
            RouteView::ListCollections { db: or_empty(r.database_name) }
        }
    } else {
        RouteView::Respond(error_of("Unknown type"@))
    }
}

fn is_empty_text(s: &str) -> (r: bool)
    ensures
        r == (s@.len() == 0),
{
    crate::text::chars_of(s).len() == 0
}

/// Finds where a request goes.
pub fn process_request(req: &WsRequest) -> (r: Route)
    ensures
        r@ == route_of(req@),
{
    let t = req.msg_type.as_str();
    let db = text_or_empty(&req.database_name);
    if same_text(t, "precache") {
        if is_empty_text(db) {
            return Route::Respond(error_response("database_name is required"));
        }
        let collections = match &req.collections {
            Some(c) => copy_texts(c),
            None => no_texts(),
        };
        return Route::Precache { db: owned(db), collections };
    }
    if asks_for_action(t) {
        let category = text_or_empty(&req.category);
        let function = text_or_empty(&req.function_name);
        if same_text(category, "collection") {
            let none = Json::Null;
            let payload = match &req.payload {
                Some(p) => p,
                None => &none,
            };
            assert(payload@ == payload_of(req@));
            return match database_name(payload, &req.database_name) {
                Some(name) => Route::Collection { db: owned(name), function: owned(function) },
                None => Route::Respond(error_response("database_name missing in payload")),
            };
        }
        if same_text(category, "database") {
            return Route::Database { function: owned(function) };
        }
        return Route::Respond(error_response("Unknown category"));
    }
    if same_text(t, "metadata") {
        let m = metadata_value();
        return Route::Respond(success_response(&m));
    }
    if same_text(t, "list_databases") {
        return Route::ListDatabases;
    }
    if same_text(t, "list_collections") {
        if is_empty_text(db) {
            return Route::Respond(error_response("database_name is required"));
        }
        return Route::ListCollections { db: owned(db) };
    }
    Route::Respond(error_response("Unknown type"))
}

/// The response that was cached.
pub fn cached_response(json: String) -> (r: WsResponse)
    ensures
        r@ == (ResponseView { success: true, response_json: json@, message: "OK"@ }),
{
    WsResponse { success: true, response_json: json, message: owned("OK") }
}

/// What is cached of the response to a request that has a name in the cache:
/// only a success is.
pub open spec fn cached_entry(name: Option<Seq<char>>, response: ResponseView) -> Option<
    (Seq<char>, Seq<char>),
> {
    match name {
        Some(key) => if response.success {
            Some((key, response.response_json))
        } else {
            None
        },
        None => None,
    }
}

/// What is cached of a response, and under which name.
pub fn cache_entry(key: Option<String>, response: &WsResponse) -> (r: Option<(String, String)>)
    ensures
        match r {
            Some((k, v)) => cached_entry(string_view(key), response@) == Some((k@, v@)),
            None => cached_entry(string_view(key), response@) is None,
        },
{
    match key {
        Some(k) => if response.success {
            Some((k, response.response_json.clone()))
        } else {
            None
        },
        None => None,
    }
}

/// A response that is served from the cache is the one that was cached.
pub proof fn lemma_cache_is_transparent(name: Seq<char>, value: JsonView)
    ensures
        cached_entry(Some(name), success_of(value)) matches Some((k, v)) && k == name && (
        ResponseView { success: true, response_json: v, message: "OK"@ }) == success_of(value),
        cached_entry(Some(name), error_of(name)) is None,
{
}

/// What is to be done first about a request.
#[derive(Debug)]
pub enum RequestStep {
    /// Look for a cached response.
    LookUp { key: String },
    /// Serve a cached response.
    Serve(WsResponse),
    /// Go where the request goes.
    Go(Route),
}

/// What is to be done first about a request.
#[verifier::ext_equal]
pub enum RequestStepView {
    LookUp { key: Seq<char> },
    Serve(ResponseView),
    Go(RouteView),
}

impl View for RequestStep {
    type V = RequestStepView;

    open spec fn view(&self) -> RequestStepView {
        match self {
            RequestStep::LookUp { key } => RequestStepView::LookUp { key: key@ },
            RequestStep::Serve(r) => RequestStepView::Serve(r@),
            RequestStep::Go(r) => RequestStepView::Go(r@),
        }
    }
}

/// The name under which the response to a request is cached, if responses are
/// cached at all.
pub open spec fn name_in(cache: Option<RequestCacheState>, r: RequestView) -> Option<Seq<char>> {
    match cache {
        Some(c) => cache_name(c.entry_prefix@, r),
        None => None,
    }
}

/// Starts with a request: a response that may be cached is looked for, and any
/// other request goes where it goes.
pub fn begin_request(cache: &Option<RequestCacheState>, req: &WsRequest) -> (r: RequestStep)
    ensures
        r@ == match name_in(*cache, req@) {
            Some(key) => RequestStepView::LookUp { key },
            None => RequestStepView::Go(route_of(req@)),
        },
{
    match cache {
        Some(c) => match c.build_key(req) {
            Some(key) => RequestStep::LookUp { key },
            None => RequestStep::Go(process_request(req)),
        },
        None => RequestStep::Go(process_request(req)),
    }
}

/// Goes on with a request when its response was looked for: what was found is
/// served, and without it the request goes where it goes.
pub fn continue_request(req: &WsRequest, cached: Option<String>) -> (r: RequestStep)
    ensures
        r@ == match string_view(cached) {
            Some(json) => RequestStepView::Serve(
                ResponseView { success: true, response_json: json, message: "OK"@ },
            ),
            None => RequestStepView::Go(route_of(req@)),
        },
{
    match cached {
        Some(json) => RequestStep::Serve(cached_response(json)),
        None => RequestStep::Go(process_request(req)),
    }
}

/// What is to be done in the cache.
#[derive(Debug)]
pub enum CacheCommand {
    Keep { key: String, ttl_seconds: u64, json: String },
    Clear { pattern: String },
}

/// What is to be done in the cache.
#[verifier::ext_equal]
pub enum CacheCommandView {
    Keep { key: Seq<char>, ttl_seconds: u64, json: Seq<char> },
    Clear { pattern: Seq<char> },
}

impl View for CacheCommand {
    type V = CacheCommandView;

    open spec fn view(&self) -> CacheCommandView {
        match self {
            CacheCommand::Keep { key, ttl_seconds, json } => CacheCommandView::Keep {
                key: key@,
                ttl_seconds: *ttl_seconds,
                json: json@,
            },
            CacheCommand::Clear { pattern } => CacheCommandView::Clear { pattern: pattern@ },
        }
    }
}

pub open spec fn cache_command_views(s: Seq<CacheCommand>) -> Seq<CacheCommandView> {
    s.map_values(|c: CacheCommand| c@)
}

/// What a response brings about in the cache: it is kept where it may be, and
/// what it makes stale is cleared.
pub open spec fn cache_commands(
    prefix: Seq<char>,
    ttl_seconds: u64,
    r: RequestView,
    response: ResponseView,
) -> Seq<CacheCommandView> {
    (match cached_entry(cache_name(prefix, r), response) {
        Some((key, json)) => seq![CacheCommandView::Keep { key, ttl_seconds, json }],
        None => Seq::empty(),
    }) + stale_patterns(prefix, r, response).map_values(
        |p: Seq<char>| CacheCommandView::Clear { pattern: p },
    )
}

/// Ends with a request: what its response brings about in the cache.
pub fn settle_request(cache: &RequestCacheState, req: &WsRequest, response: &WsResponse) -> (r: Vec<
    CacheCommand,
>)
    ensures
        cache_command_views(r@) == cache_commands(
            cache.entry_prefix@,
            cache.ttl_seconds,
            req@,
            response@,
        ),
{
    let mut r: Vec<CacheCommand> = Vec::new();
    match cache_entry(cache.build_key(req), response) {
        Some((key, json)) => {
            r.push(CacheCommand::Keep { key, ttl_seconds: cache.ttl_seconds, json });
        },
        None => {},
    }
    let ghost first = cache_command_views(r@);
    let patterns = patterns_to_clear(cache, req, response);
    let ghost all = stale_patterns(cache.entry_prefix@, req@, response@).map_values(
        |p: Seq<char>| CacheCommandView::Clear { pattern: p },
    );
    let mut i: usize = 0;
    assert(cache_command_views(r@) == first + all.take(0));
    while i < patterns.len()
        invariant
            i <= patterns@.len(),
            texts(patterns@) == stale_patterns(cache.entry_prefix@, req@, response@),
            all == stale_patterns(cache.entry_prefix@, req@, response@).map_values(
                |p: Seq<char>| CacheCommandView::Clear { pattern: p },
            ),
            cache_command_views(r@) == first + all.take(i as int),
        decreases patterns@.len() - i,
    {
        let ghost before = cache_command_views(r@);
        assert(texts(patterns@)[i as int] == patterns@[i as int]@);
        r.push(CacheCommand::Clear { pattern: patterns[i].clone() });
        assert(cache_command_views(r@) == before.push(all[i as int]));
        assert(all.take(i + 1) == all.take(i as int).push(all[i as int]));
        i = i + 1;
    }
    assert(all.take(i as int) == all);
    r
}

/// A request either has its response kept or makes responses stale, never both;
/// one that is refused does neither.
pub proof fn lemma_cache_commands(
    prefix: Seq<char>,
    ttl_seconds: u64,
    r: RequestView,
    response: ResponseView,
)
    ensures
        is_mutating(r) ==> forall|i: int|
            0 <= i < cache_commands(prefix, ttl_seconds, r, response).len() ==> (
            #[trigger] cache_commands(prefix, ttl_seconds, r, response)[i]) is Clear,
        !is_mutating(r) ==> forall|i: int|
            0 <= i < cache_commands(prefix, ttl_seconds, r, response).len() ==> (
            #[trigger] cache_commands(prefix, ttl_seconds, r, response)[i]) is Keep,
        !response.success ==> cache_commands(prefix, ttl_seconds, r, response).len() == 0,
{
    if is_mutating(r) {
        crate::request::lemma_changes_are_not_cached(r);
        assert(cache_name(prefix, r) is None);
    }
}

/// The response to an operation.
pub fn action_response(result: Result<Json, String>) -> (r: WsResponse)
    ensures
        r@ == match result {
            Ok(v) => success_of(v@),
            Err(e) => error_of(e@),
        },
{
    match result {
        Ok(v) => success_response(&v),
        Err(e) => error_response(e.as_str()),
    }
}

/// The response that documents are kept from now on.
pub fn precache_response() -> (r: WsResponse)
    ensures
        r@ == success_of(
            JsonView::Object(
                seq![
                    ("ok"@, JsonView::Bool(true)),
                    ("message"@, JsonView::String("Cache established"@)),
                ],
            ),
        ),
{
    let mut o = no_entries();
    put(&mut o, "ok", Json::Bool(true));
    put(&mut o, "message", text_value("Cache established"));
    let v = Json::Object(o);
    assert(v@->Object_0 == seq![
        ("ok"@, JsonView::Bool(true)),
        ("message"@, JsonView::String("Cache established"@)),
    ]);
    success_response(&v)
}

/// What keeps the documents of some collections of a database.
pub open spec fn precached(
    db: Seq<(Seq<char>, Seq<JsonView>)>,
    names: Seq<Seq<char>>,
) -> Seq<(Seq<char>, Seq<EffectView>)> {
    names.map_values(|n: Seq<char>| (n, caching_all(docs_in(db, n))))
}

pub open spec fn precache_views(s: Seq<(String, Vec<Effect>)>) -> Seq<
    (Seq<char>, Seq<EffectView>),
> {
    s.map_values(|e: (String, Vec<Effect>)| (e.0@, effect_views(e.1@)))
}

/// What keeps the documents of some collections of a database.
pub fn precache_effects(database: &Database, names: &Vec<String>) -> (r: Vec<
    (String, Vec<Effect>),
>)
    ensures
        precache_views(r@) == precached(database@, texts(names@)),
{
    let ghost all = precached(database@, texts(names@));
    let mut r: Vec<(String, Vec<Effect>)> = Vec::new();
    let mut i: usize = 0;
    assert(precache_views(r@) == all.take(0));
    while i < names.len()
        invariant
            i <= names@.len(),
            all == precached(database@, texts(names@)),
            precache_views(r@) == all.take(i as int),
        decreases names@.len() - i,
    {
        let ghost before = precache_views(r@);
        let docs = database.docs(names[i].as_str());
        let effects = crate::collection::caching_effects(&docs);
        let ghost x = (names@[i as int]@, effect_views(effects@));
        r.push((names[i].clone(), effects));
        assert(precache_views(r@) == before.push(x));
        assert(all.take(i + 1) == all.take(i as int).push(x));
        i = i + 1;
    }
    assert(all.take(i as int) == all);
    r
}

/// Whether a function changes which databases there are.
pub open spec fn changes_list(category: Seq<char>, func: Seq<char>) -> bool {
    category == "database"@ && (func == "createDatabase"@ || func == "deleteDatabase"@ || func
        == "renameDatabase"@)
}

/// The patterns of the cached responses that a change makes stale.
pub open spec fn stale_patterns(
    prefix: Seq<char>,
    r: RequestView,
    response: ResponseView,
) -> Seq<Seq<char>> {
    if is_mutating(r) && indicates_mutation(r, response) {
        let db = or_empty(wanted_database(payload_of(r), r.database_name));
        let new = or_empty(nonempty_text(payload_of(r), "new_database_name"@));
        (if changes_list(or_empty(r.category), or_empty(r.function_name)) {
            seq![cached_list_pattern(prefix)]
        } else {
            Seq::empty()
        }) + (if db.len() > 0 {
            seq![cached_database_pattern(prefix, db)]
        } else {
            Seq::empty()
        }) + (if new.len() > 0 && new != db {
            seq![cached_database_pattern(prefix, new)]
        } else {
            Seq::empty()
        })
    } else {
        Seq::empty()
    }
}

/// The patterns of the cached responses that a response tells are stale.
pub fn patterns_to_clear(cache: &RequestCacheState, req: &WsRequest, response: &WsResponse) -> (r:
    Vec<String>)
    ensures
        texts(r@) == stale_patterns(cache.entry_prefix@, req@, response@),
{
    let mut r = no_texts();
    if !is_mutating_request(req) || !response_indicates_mutation(req, response) {
        return r;
    }
    let none = Json::Null;
    let payload = match &req.payload {
        Some(p) => p,
        None => &none,
    };
    assert(payload@ == payload_of(req@));
    proof {
        reveal_strlit("");
        assert(""@ == Seq::<char>::empty());
    }
    let db = match database_name(payload, &req.database_name) {
        Some(s) => s,
        None => "",
    };
    let new = match opt_str(payload, "new_database_name") {
        Some(s) => s,
        None => "",
    };
    let f = text_or_empty(&req.function_name);
    if same_text(text_or_empty(&req.category), "database") && (same_text(f, "createDatabase")
        || same_text(f, "deleteDatabase") || same_text(f, "renameDatabase")) {
        add_text(&mut r, cache.list_databases_pattern().as_str());
    }
    if !is_empty_text(db) {
        add_text(&mut r, cache.database_pattern(db).as_str());
    }
    if !is_empty_text(new) && !same_text(new, db) {
        add_text(&mut r, cache.database_pattern(new).as_str());
    }
    assert(texts(r@) == stale_patterns(cache.entry_prefix@, req@, response@));
    r
}

/// A change clears every cached response about its database, about the database
/// that it gives a new name, and the lists of databases where it changes which
/// there are.
pub proof fn lemma_change_clears_cache(
    prefix: Seq<char>,
    change: RequestView,
    response: ResponseView,
    cached: RequestView,
)
    requires
        is_mutating(change),
        indicates_mutation(change, response),
        crate::request::is_cacheable(cached),
        crate::request::is_about_database(cached) ==> wanted_database(
            payload_of(change),
            change.database_name,
        ) == Some(crate::request::scope_database(cached)) || nonempty_text(
            payload_of(change),
            "new_database_name"@,
        ) == Some(crate::request::scope_database(cached)),
        crate::request::is_about_database(cached) || (cached.msg_type == "list_databases"@
            && changes_list(or_empty(change.category), or_empty(change.function_name))),
    ensures
        exists|i: int|
            0 <= i < stale_patterns(prefix, change, response).len() && crate::keys::covers(
                #[trigger] stale_patterns(prefix, change, response)[i],
                crate::request::cache_name(prefix, cached)->Some_0,
            ),
{
    let p = stale_patterns(prefix, change, response);
    let db = or_empty(wanted_database(payload_of(change), change.database_name));
    let new = or_empty(nonempty_text(payload_of(change), "new_database_name"@));
    crate::request::lemma_cache_patterns_cover(prefix, cached, db);
    crate::request::lemma_cache_patterns_cover(prefix, cached, new);
    if crate::request::is_about_database(cached) {
        let i: int = if changes_list(or_empty(change.category), or_empty(change.function_name)) {
            1
        } else {
            0
        };
        if db == crate::request::scope_database(cached) && db.len() > 0 {
            assert(p[i] == cached_database_pattern(prefix, db));
        } else {
            assert(new.len() > 0);
            let k: int = if db.len() > 0 {
                i + 1
            } else {
                i
            };
            assert(p[k] == cached_database_pattern(prefix, new));
        }
    } else {
        assert(p[0] == cached_list_pattern(prefix));
    }
}

} // verus!
