//! Requests and responses, and which responses are cached.

use crate::json::{entry_views, Json, JsonView};
use crate::keys::{covers, hash_text, link, linked, name_starts, text_hash};
use crate::object::{field, int_of, own_view, str_of, string_view, text_view};
use crate::text::{
    begins_with, cache_key_segment, cat, hex_char, hex_digit, owned, same_text, segment, texts,
};
use crate::wire::{from_text, parsed, text_of, to_text};
use vstd::prelude::*;

verus! {

broadcast use crate::json::group_json_views;

/// A request of a client.
#[derive(Debug)]
pub struct WsRequest {
    pub msg_type: String,
    pub category: Option<String>,
    pub function_name: Option<String>,
    pub payload: Option<Json>,
    pub database_name: Option<String>,
    pub collections: Option<Vec<String>>,
}

/// What a request is.
#[verifier::ext_equal]
pub struct RequestView {
    pub msg_type: Seq<char>,
    pub category: Option<Seq<char>>,
    pub function_name: Option<Seq<char>>,
    pub payload: Option<JsonView>,
    pub database_name: Option<Seq<char>>,
    pub collections: Option<Seq<Seq<char>>>,
}

impl View for WsRequest {
    type V = RequestView;

    open spec fn view(&self) -> RequestView {
        RequestView {
            msg_type: self.msg_type@,
            category: string_view(self.category),
            function_name: string_view(self.function_name),
            payload: own_view(self.payload),
            database_name: string_view(self.database_name),
            collections: match self.collections {
                Some(c) => Some(texts(c@)),
                None => None,
            },
        }
    }
}

/// A response to a client.
#[derive(Debug)]
pub struct WsResponse {
    pub success: bool,
    pub response_json: String,
    pub message: String,
}

/// What a response is.
#[verifier::ext_equal]
pub struct ResponseView {
    pub success: bool,
    pub response_json: Seq<char>,
    pub message: Seq<char>,
}

impl View for WsResponse {
    type V = ResponseView;

    open spec fn view(&self) -> ResponseView {
        ResponseView {
            success: self.success,
            response_json: self.response_json@,
            message: self.message@,
        }
    }
}

/// The response that carries a value.
pub open spec fn success_of(data: JsonView) -> ResponseView {
    ResponseView { success: true, response_json: text_of(data), message: "OK"@ }
}

/// The response that carries an error.
pub open spec fn error_of(message: Seq<char>) -> ResponseView {
    ResponseView { success: false, response_json: "null"@, message }
}

/// The response that carries a value.
pub fn success_response(data: &Json) -> (r: WsResponse)
    ensures
        r@ == success_of(data@),
{
    WsResponse { success: true, response_json: to_text(data), message: owned("OK") }
}

/// The response that carries an error.
pub fn error_response(message: &str) -> (r: WsResponse)
    ensures
        r@ == error_of(message@),
{
    WsResponse { success: false, response_json: owned("null"), message: owned(message) }
}

/// The response to a message that is no request.
pub fn invalid_json_response(error: &str) -> (r: WsResponse)
    ensures
        r@ == error_of("Invalid JSON: "@ + error@),
{
    error_response(cat("Invalid JSON: ", error).as_str())
}

/// A response as a JSON value.
pub open spec fn response_value(r: ResponseView) -> JsonView {
    JsonView::Object(
        seq![
            ("success"@, JsonView::Bool(r.success)),
            ("response_json"@, JsonView::String(r.response_json)),
            ("message"@, JsonView::String(r.message)),
        ],
    )
}

/// Adds an entry at the end.
pub fn put(o: &mut Vec<(String, Json)>, key: &str, v: Json)
    ensures
        entry_views(final(o)@) == entry_views(old(o)@).push((key@, v@)),
{
    let ghost before = entry_views(o@);
    let ghost x = (key@, v@);
    o.push((owned(key), v));
    assert(entry_views(o@) == before.push(x));
}

/// No entries yet.
pub fn no_entries() -> (r: Vec<(String, Json)>)
    ensures
        entry_views(r@) == Seq::<(Seq<char>, JsonView)>::empty(),
{
    let r: Vec<(String, Json)> = Vec::new();
    assert(entry_views(r@) == Seq::<(Seq<char>, JsonView)>::empty());
    r
}

/// The message that carries a response.
pub fn response_message(r: &WsResponse) -> (s: String)
    ensures
        s@ == text_of(response_value(r@)),
{
    let mut o = no_entries();
    put(&mut o, "success", Json::Bool(r.success));
    put(&mut o, "response_json", Json::String(r.response_json.clone()));
    put(&mut o, "message", Json::String(r.message.clone()));
    let v = Json::Object(o);
    assert(v@ == response_value(r@)) by {
        assert(v@->Object_0 == response_value(r@)->Object_0);
    }
    to_text(&v)
}

/// A text, or the empty one where it is missing.
pub open spec fn or_empty(s: Option<Seq<char>>) -> Seq<char> {
    match s {
        Some(t) => t,
        None => Seq::empty(),
    }
}

/// A text, or the empty one where it is missing.
pub fn text_or_empty(s: &Option<String>) -> (r: &str)
    ensures
        r@ == or_empty(string_view(*s)),
{
    match s {
        Some(t) => t.as_str(),
        None => {
            proof {
                reveal_strlit("");
                assert(""@ == Seq::<char>::empty());
            }
            ""
        },
    }
}

/// The text under a key of a value, if there is one that is not empty.
pub open spec fn nonempty_text(v: JsonView, key: Seq<char>) -> Option<Seq<char>> {
    match field(v, key) {
        Some(x) => match str_of(x) {
            Some(s) => if s.len() > 0 {
                Some(s)
            } else {
                None
            },
            None => None,
        },
        None => None,
    }
}

/// The text under a key of a value, if there is one that is not empty.
pub fn opt_str<'a>(payload: &'a Json, key: &str) -> (r: Option<&'a str>)
    ensures
        text_view(r) == nonempty_text(payload@, key@),
{
    match payload.get(key) {
        Some(x) => match x.as_str() {
            Some(s) => {
                let n = crate::text::chars_of(s).len();
                if n > 0 {
                    Some(s)
                } else {
                    None
                }
            },
            None => None,
        },
        None => None,
    }
}

/// The name of the collection that a payload is about.
pub open spec fn wanted_collection(payload: JsonView) -> Option<Seq<char>> {
    match nonempty_text(payload, "collectionName"@) {
        Some(s) => Some(s),
        None => nonempty_text(payload, "collection_name"@),
    }
}

/// The name of the collection that a payload is about.
pub fn collection_name(payload: &Json) -> (r: Option<&str>)
    ensures
        text_view(r) == wanted_collection(payload@),
{
    match opt_str(payload, "collectionName") {
        Some(s) => Some(s),
        None => opt_str(payload, "collection_name"),
    }
}

/// The name of the database that a request is about: that of its payload, or
/// that of the message.
pub open spec fn wanted_database(payload: JsonView, message: Option<Seq<char>>) -> Option<
    Seq<char>,
> {
    match nonempty_text(payload, "database_name"@) {
        Some(s) => Some(s),
        None => match message {
            Some(s) => if s.len() > 0 {
                Some(s)
            } else {
                None
            },
            None => None,
        },
    }
}

/// The name of the database that a request is about.
pub fn database_name<'a>(payload: &'a Json, message: &'a Option<String>) -> (r: Option<&'a str>)
    ensures
        text_view(r) == wanted_database(payload@, string_view(*message)),
{
    match opt_str(payload, "database_name") {
        Some(s) => Some(s),
        None => match message {
            Some(s) => {
                let n = crate::text::chars_of(s.as_str()).len();
                if n > 0 {
                    Some(s.as_str())
                } else {
                    None
                }
            },
            None => None,
        },
    }
}

/// The name of the database, or the error where there is none.
pub fn require_db_name<'a>(payload: &'a Json, message: &'a Option<String>) -> (r: Result<
    &'a str,
    String,
>)
    ensures
        match r {
            Ok(s) => wanted_database(payload@, string_view(*message)) == Some(s@),
            Err(e) => wanted_database(payload@, string_view(*message)) is None && e@
                == "database_name is required"@,
        },
{
    match database_name(payload, message) {
        Some(s) => Ok(s),
        None => Err(owned("database_name is required")),
    }
}

/// The name of the collection, or the error where there is none.
pub fn require_collection_name(payload: &Json) -> (r: Result<&str, String>)
    ensures
        match r {
            Ok(s) => wanted_collection(payload@) == Some(s@),
            Err(e) => wanted_collection(payload@) is None && e@ == "collectionName is required"@,
        },
{
    match collection_name(payload) {
        Some(s) => Ok(s),
        None => Err(owned("collectionName is required")),
    }
}

/// Whether a message asks for an operation.
pub open spec fn is_action(msg_type: Seq<char>) -> bool {
    msg_type == "action"@ || msg_type == "request"@
}

/// Whether a message asks for an operation.
pub fn asks_for_action(msg_type: &str) -> (r: bool)
    ensures
        r == is_action(msg_type@),
{
    same_text(msg_type, "action") || same_text(msg_type, "request")
}

/// The payload of a request, or null.
pub open spec fn payload_of(r: RequestView) -> JsonView {
    match r.payload {
        Some(p) => p,
        None => JsonView::Null,
    }
}

pub open spec fn reads_collection(func: Seq<char>) -> bool {
    func == "find"@ || func == "findOne"@ || func == "exportCollection"@
}

pub fn is_cacheable_collection_function(func: &str) -> (r: bool)
    ensures
        r == reads_collection(func@),
{
    same_text(func, "find") || same_text(func, "findOne") || same_text(func, "exportCollection")
}

pub open spec fn reads_database(func: Seq<char>) -> bool {
    func == "exportDatabase"@
}

pub fn is_cacheable_database_function(func: &str) -> (r: bool)
    ensures
        r == reads_database(func@),
{
    same_text(func, "exportDatabase")
}

/// Whether the response to a request may be cached: the request only reads.
pub open spec fn is_cacheable(r: RequestView) -> bool {
    if r.msg_type == "metadata"@ || r.msg_type == "list_databases"@ || r.msg_type
        == "list_collections"@ {
        true
    } else if is_action(r.msg_type) {
        if or_empty(r.category) == "collection"@ {
            reads_collection(or_empty(r.function_name))
        } else if or_empty(r.category) == "database"@ {
            reads_database(or_empty(r.function_name))
        } else {
            false
        }
    } else {
        false
    }
}

pub open spec fn changes_collection(func: Seq<char>) -> bool {
    ||| func == "insertOne"@
    ||| func == "updateOne"@
    ||| func == "replaceOne"@
    ||| func == "deleteOne"@
    ||| func == "deleteMany"@
    ||| func == "updateCollection"@
    ||| func == "importCollection"@
}

pub open spec fn changes_database(func: Seq<char>) -> bool {
    ||| func == "createDatabase"@
    ||| func == "deleteDatabase"@
    ||| func == "renameDatabase"@
    ||| func == "createCollection"@
    ||| func == "deleteCollection"@
    ||| func == "renameCollection"@
    ||| func == "importDatabase"@
}

/// Whether a request asks for a change.
pub open spec fn is_mutating(r: RequestView) -> bool {
    &&& is_action(r.msg_type)
    &&& {
        ||| or_empty(r.category) == "collection"@ && changes_collection(or_empty(r.function_name))
        ||| or_empty(r.category) == "database"@ && changes_database(or_empty(r.function_name))
    }
}

/// The response to a request that asks for a change is never cached.
pub proof fn lemma_changes_are_not_cached(r: RequestView)
    requires
        is_mutating(r),
    ensures
        !is_cacheable(r),
        forall|prefix: Seq<char>| (#[trigger] cache_name(prefix, r)) is None,
{
    reveal_strlit("action");
    reveal_strlit("request");
    reveal_strlit("metadata");
    reveal_strlit("list_databases");
    reveal_strlit("list_collections");
    reveal_strlit("collection");
    reveal_strlit("database");
    reveal_strlit("find");
    reveal_strlit("findOne");
    reveal_strlit("exportCollection");
    reveal_strlit("exportDatabase");
    reveal_strlit("insertOne");
    reveal_strlit("updateOne");
    reveal_strlit("replaceOne");
    reveal_strlit("deleteOne");
    reveal_strlit("deleteMany");
    reveal_strlit("updateCollection");
    reveal_strlit("importCollection");
    reveal_strlit("createDatabase");
    reveal_strlit("deleteDatabase");
    reveal_strlit("renameDatabase");
    reveal_strlit("createCollection");
    reveal_strlit("deleteCollection");
    reveal_strlit("renameCollection");
    reveal_strlit("importDatabase");
    let t = r.msg_type;
    assert(t.len() == 6 || t.len() == 7);
    assert("collection"@.len() != "database"@.len());
    let f = or_empty(r.function_name);
    assert(f[0] == 'i' || f[0] == 'u' || f[0] == 'r' || f[0] == 'd' || f[0] == 'c');
}

/// Whether the response to a request may be cached.
pub fn is_cacheable_request(req: &WsRequest) -> (r: bool)
    ensures
        r == is_cacheable(req@),
{
    let t = req.msg_type.as_str();
    if same_text(t, "metadata") || same_text(t, "list_databases") || same_text(
        t,
        "list_collections",
    ) {
        return true;
    }
    if !asks_for_action(t) {
        return false;
    }
    let category = text_or_empty(&req.category);
    let function_name = text_or_empty(&req.function_name);
    if same_text(category, "collection") {
        is_cacheable_collection_function(function_name)
    } else if same_text(category, "database") {
        is_cacheable_database_function(function_name)
    } else {
        false
    }
}

/// Whether a request asks for a change.
pub fn is_mutating_request(req: &WsRequest) -> (r: bool)
    ensures
        r == is_mutating(req@),
{
    if !asks_for_action(req.msg_type.as_str()) {
        return false;
    }
    let category = text_or_empty(&req.category);
    let f = text_or_empty(&req.function_name);
    let c = same_text(f, "insertOne") || same_text(f, "updateOne") || same_text(f, "replaceOne")
        || same_text(f, "deleteOne") || same_text(f, "deleteMany") || same_text(
        f,
        "updateCollection",
    ) || same_text(f, "importCollection");
    let d = same_text(f, "createDatabase") || same_text(f, "deleteDatabase") || same_text(
        f,
        "renameDatabase",
    ) || same_text(f, "createCollection") || same_text(f, "deleteCollection") || same_text(
        f,
        "renameCollection",
    ) || same_text(f, "importDatabase");
    (same_text(category, "collection") && c) || (same_text(category, "database") && d)
}

/// A count in the result of an operation, or zero where it has none.
pub open spec fn count_in(result: Option<JsonView>, key: Seq<char>) -> i64 {
    match result {
        Some(v) => match field(v, key) {
            Some(x) => match int_of(x) {
                Some(n) => n,
                None => 0,
            },
            None => 0,
        },
        None => 0,
    }
}

/// Whether the result of an operation, if it is known, tells of a change.
pub open spec fn tells_of_change(
    category: Seq<char>,
    func: Seq<char>,
    result: Option<JsonView>,
) -> bool {
    if category == "collection"@ && (func == "updateOne"@ || func == "replaceOne"@) {
        count_in(result, "modifiedCount"@) > 0 || count_in(result, "upsertedCount"@) > 0
    } else if category == "collection"@ && (func == "deleteOne"@ || func == "deleteMany"@) {
        count_in(result, "deletedCount"@) > 0
    } else if category == "collection"@ && func == "updateCollection"@ {
        count_in(result, "insertedCount"@) > 0 || count_in(result, "modifiedCount"@) > 0
            || count_in(result, "matchedCount"@) > 0 || count_in(result, "upsertedCount"@) > 0
    } else if category == "database"@ && (func == "deleteCollection"@ || func
        == "deleteDatabase"@) {
        !(result matches Some(v) && field(v, "deleted"@) == Some(JsonView::Bool(false)))
    } else {
        true
    }
}

/// Whether a response tells that its request changed something.
pub open spec fn indicates_mutation(r: RequestView, response: ResponseView) -> bool {
    response.success && is_action(r.msg_type) && tells_of_change(
        or_empty(r.category),
        or_empty(r.function_name),
        parsed(response.response_json),
    )
}

fn count(result: &Option<Json>, key: &str) -> (r: i64)
    ensures
        r == count_in(own_view(*result), key@),
{
    match result {
        Some(v) => match v.get(key) {
            Some(x) => match x.as_i64() {
                Some(n) => n,
                None => 0,
            },
            None => 0,
        },
        None => 0,
    }
}

/// Whether the result of an operation, if it is known, tells of a change.
pub fn mutation_in_result(category: &str, func: &str, result: &Option<Json>) -> (r: bool)
    ensures
        r == tells_of_change(category@, func@, own_view(*result)),
{
    if same_text(category, "collection") {
        if same_text(func, "updateOne") || same_text(func, "replaceOne") {
            return count(result, "modifiedCount") > 0 || count(result, "upsertedCount") > 0;
        }
        if same_text(func, "deleteOne") || same_text(func, "deleteMany") {
            return count(result, "deletedCount") > 0;
        }
        if same_text(func, "updateCollection") {
            return count(result, "insertedCount") > 0 || count(result, "modifiedCount") > 0
                || count(result, "matchedCount") > 0 || count(result, "upsertedCount") > 0;
        }
    }
    if same_text(category, "database") && (same_text(func, "deleteCollection") || same_text(
        func,
        "deleteDatabase",
    )) {
        return match result {
            Some(v) => match v.get("deleted") {
                Some(Json::Bool(b)) => *b,
                _ => true,
            },
            None => true,
        };
    }
    true
}

/// Whether a response tells that its request changed something.
pub fn response_indicates_mutation(req: &WsRequest, response: &WsResponse) -> (r: bool)
    ensures
        r == indicates_mutation(req@, response@),
{
    if !response.success || !asks_for_action(req.msg_type.as_str()) {
        return false;
    }
    let result = from_text(response.response_json.as_str());
    mutation_in_result(text_or_empty(&req.category), text_or_empty(&req.function_name), &result)
}

/// The part of the cache that the response to a request belongs to.
pub open spec fn scope_of(r: RequestView) -> Option<Seq<char>> {
    if !is_cacheable(r) {
        None
    } else if r.msg_type == "metadata"@ {
        Some(link("scope"@, "metadata"@))
    } else if r.msg_type == "list_databases"@ {
        Some(link("scope"@, "list_databases"@))
    } else {
        Some(link("db"@, link(segment(scope_database(r)), scope_rest(r))))
    }
}

/// The database whose part of the cache the response to a request belongs to.
pub open spec fn scope_database(r: RequestView) -> Seq<char> {
    if r.msg_type == "list_collections"@ {
        or_empty(r.database_name)
    } else {
        or_empty(wanted_database(payload_of(r), r.database_name))
    }
}

/// What follows the database in the name of the part of the cache.
pub open spec fn scope_rest(r: RequestView) -> Seq<char> {
    if r.msg_type == "list_collections"@ {
        "list_collections"@
    } else if or_empty(r.category) == "collection"@ {
        link(
            "collection"@,
            link(
                segment(or_empty(wanted_collection(payload_of(r)))),
                link("function"@, segment(or_empty(r.function_name))),
            ),
        )
    } else {
        link("database"@, link("function"@, segment(or_empty(r.function_name))))
    }
}

/// What tells cacheable requests apart.
pub open spec fn fingerprint_value(r: RequestView) -> Option<JsonView> {
    if !is_cacheable(r) {
        None
    } else if r.msg_type == "metadata"@ || r.msg_type == "list_databases"@ {
        Some(JsonView::Object(seq![("type"@, JsonView::String(r.msg_type))]))
    } else if r.msg_type == "list_collections"@ {
        Some(
            JsonView::Object(
                seq![
                    ("type"@, JsonView::String("list_collections"@)),
                    ("database_name"@, JsonView::String(or_empty(r.database_name))),
                ],
            ),
        )
    } else {
        Some(
            JsonView::Object(
                seq![
                    ("type"@, JsonView::String("action"@)),
                    ("category"@, JsonView::String(or_empty(r.category))),
                    ("function_name"@, JsonView::String(or_empty(r.function_name))),
                    ("payload"@, payload_of(r)),
                ],
            ),
        )
    }
}

/// The part of the cache that the response to a request belongs to.
pub fn cacheable_request_scope(req: &WsRequest) -> (r: Option<String>)
    ensures
        string_view(r) == scope_of(req@),
{
    if !is_cacheable_request(req) {
        return None;
    }
    let t = req.msg_type.as_str();
    if same_text(t, "metadata") {
        return Some(linked("scope", "metadata"));
    }
    if same_text(t, "list_databases") {
        return Some(linked("scope", "list_databases"));
    }
    if same_text(t, "list_collections") {
        let db = cache_key_segment(text_or_empty(&req.database_name));
        return Some(linked("db", linked(db.as_str(), "list_collections").as_str()));
    }
    let none = Json::Null;
    let payload = match &req.payload {
        Some(p) => p,
        None => &none,
    };
    assert(payload@ == payload_of(req@));
    proof {
        reveal_strlit("");
        assert(""@ == Seq::<char>::empty());
    }
    let db = match database_name(payload, &req.database_name) {
        Some(s) => s,
        None => "",
    };
    let function = linked(
        "function",
        cache_key_segment(text_or_empty(&req.function_name)).as_str(),
    );
    let rest = if same_text(text_or_empty(&req.category), "collection") {
        let collection = match collection_name(payload) {
            Some(s) => s,
            None => "",
        };
        linked(
            "collection",
            linked(cache_key_segment(collection).as_str(), function.as_str()).as_str(),
        )
    } else {
        linked("database", function.as_str())
    };
    Some(linked("db", linked(cache_key_segment(db).as_str(), rest.as_str()).as_str()))
}

/// What tells cacheable requests apart.
pub fn cacheable_request_fingerprint(req: &WsRequest) -> (r: Option<String>)
    ensures
        string_view(r) == match fingerprint_value(req@) {
            Some(v) => Some(text_of(v)),
            None => None,
        },
{
    if !is_cacheable_request(req) {
        return None;
    }
    let t = req.msg_type.as_str();
    let mut o = no_entries();
    if same_text(t, "metadata") || same_text(t, "list_databases") {
        put(&mut o, "type", Json::String(req.msg_type.clone()));
    } else if same_text(t, "list_collections") {
        put(&mut o, "type", Json::String(owned("list_collections")));
        put(&mut o, "database_name", Json::String(owned(text_or_empty(&req.database_name))));
    } else {
        put(&mut o, "type", Json::String(owned("action")));
        put(&mut o, "category", Json::String(owned(text_or_empty(&req.category))));
        put(&mut o, "function_name", Json::String(owned(text_or_empty(&req.function_name))));
        let payload = match &req.payload {
            Some(p) => p.clone(),
            None => Json::Null,
        };
        put(&mut o, "payload", payload);
    }
    let v = Json::Object(o);
    assert(v@->Object_0 == fingerprint_value(req@)->Some_0->Object_0);
    Some(to_text(&v))
}

/// The last `width` hexadecimal digits of a number.
pub open spec fn hex_digits(n: nat, width: nat) -> Seq<char>
    decreases width,
{
    if width == 0 {
        Seq::empty()
    } else {
        hex_digits(n / 16, (width - 1) as nat).push(hex_char(n % 16))
    }
}

fn write_hex(n: u64, width: u64) -> (r: String)
    ensures
        r@ == hex_digits(n as nat, width as nat),
    decreases width,
{
    if width == 0 {
        String::new()
    } else {
        let mut s = write_hex(n / 16, width - 1);
        s.push(hex_digit((n % 16) as u8));
        s
    }
}

/// The name under which the response to a request is cached.
pub open spec fn cache_name(prefix: Seq<char>, r: RequestView) -> Option<Seq<char>> {
    match (scope_of(r), fingerprint_value(r)) {
        (Some(s), Some(v)) => Some(
            link(link(prefix, s), hex_digits(text_hash(text_of(v)) as nat, 16)),
        ),
        _ => None,
    }
}

/// The name under which a response of a scope with a hash is cached.
pub fn entry_key(prefix: &str, scope: &str, hash: u64) -> (r: String)
    ensures
        r@ == link(link(prefix@, scope@), hex_digits(hash as nat, 16)),
{
    linked(linked(prefix, scope).as_str(), write_hex(hash, 16).as_str())
}

/// The pattern of the names of the cached responses about a database.
pub open spec fn cached_database_pattern(prefix: Seq<char>, db: Seq<char>) -> Seq<char> {
    link(link(link(prefix, "db"@), segment(db)), "*"@)
}

/// The pattern of the names of the cached lists of databases.
pub open spec fn cached_list_pattern(prefix: Seq<char>) -> Seq<char> {
    link(link(link(prefix, "scope"@), "list_databases"@), "*"@)
}

/// The cache of responses.
pub struct RequestCacheState {
    pub ttl_seconds: u64,
    pub entry_prefix: String,
}

/// The pattern of the names of all cached responses.
pub fn all_responses_pattern() -> (r: String)
    ensures
        r@ == link(name_starts()[0], "*"@),
{
    linked("microservicedb:request_cache", "*")
}

impl RequestCacheState {
    /// The cached responses, each for so many seconds.
    pub fn new(ttl_seconds: u64) -> (r: RequestCacheState)
        ensures
            r.ttl_seconds == ttl_seconds,
            r.entry_prefix@ == link(name_starts()[0], "entry"@),
    {
        RequestCacheState {
            ttl_seconds,
            entry_prefix: linked("microservicedb:request_cache", "entry"),
        }
    }

    /// The name under which the response to a request is cached.
    pub fn build_key(&self, req: &WsRequest) -> (r: Option<String>)
        ensures
            string_view(r) == cache_name(self.entry_prefix@, req@),
    {
        match (cacheable_request_scope(req), cacheable_request_fingerprint(req)) {
            (Some(s), Some(f)) => Some(
                entry_key(self.entry_prefix.as_str(), s.as_str(), hash_text(f.as_str())),
            ),
            _ => None,
        }
    }

    /// The pattern of the names of the cached lists of databases.
    pub fn list_databases_pattern(&self) -> (r: String)
        ensures
            r@ == cached_list_pattern(self.entry_prefix@),
    {
        linked(
            linked(linked(self.entry_prefix.as_str(), "scope").as_str(), "list_databases").as_str(),
            "*",
        )
    }

    /// The pattern of the names of the cached responses about a database.
    pub fn database_pattern(&self, db_name: &str) -> (r: String)
        ensures
            r@ == cached_database_pattern(self.entry_prefix@, db_name@),
    {
        linked(
            linked(
                linked(self.entry_prefix.as_str(), "db").as_str(),
                cache_key_segment(db_name).as_str(),
            ).as_str(),
            "*",
        )
    }
}

/// Whether a cached response is about one database.
pub open spec fn is_about_database(r: RequestView) -> bool {
    is_cacheable(r) && r.msg_type != "metadata"@ && r.msg_type != "list_databases"@
}

/// The first part of the name of the part of the cache that a response belongs
/// to.
spec fn scope_head(r: RequestView) -> Seq<char> {
    if is_about_database(r) {
        "db"@
    } else {
        "scope"@
    }
}

/// What follows the first part.
spec fn scope_inner(r: RequestView) -> Seq<char> {
    if is_about_database(r) {
        link(segment(scope_database(r)), scope_rest(r))
    } else if r.msg_type == "metadata"@ {
        "metadata"@
    } else {
        "list_databases"@
    }
}

proof fn lemma_cache_name_parts(prefix: Seq<char>, r: RequestView)
    requires
        is_cacheable(r),
    ensures
        cache_name(prefix, r) is Some,
        exists|hex: Seq<char>|
            cache_name(prefix, r)->Some_0 == link(
                prefix,
                link(scope_head(r), #[trigger] link(scope_inner(r), hex)),
            ),
{
    let hex = hex_digits(text_hash(text_of(fingerprint_value(r)->Some_0)) as nat, 16);
    let scope = link(scope_head(r), scope_inner(r));
    assert(scope_of(r) == Some(scope));
    assert(link(scope, hex) == link(scope_head(r), link(scope_inner(r), hex)));
    assert(link(link(prefix, scope), hex) == link(prefix, link(scope, hex)));
}

/// A pattern of three parts covers a name of three parts where the second parts
/// are the same and the third part of the pattern, with a colon, begins that of
/// the name.
proof fn lemma_pattern_covers(
    prefix: Seq<char>,
    a: Seq<char>,
    b: Seq<char>,
    head: Seq<char>,
    rest: Seq<char>,
)
    requires
        !a.contains(':'),
        !head.contains(':'),
    ensures
        covers(link(link(link(prefix, a), b), "*"@), link(prefix, link(head, rest))) <==> head == a
            && begins_with(rest, b + seq![':']),
{
    reveal_strlit("*");
    let start = prefix + seq![':'];
    let pattern = link(link(link(prefix, a), b), "*"@);
    let name = link(prefix, link(head, rest));
    assert(pattern.last() == '*');
    assert(pattern.drop_last() == start + link(a, b + seq![':']));
    assert(name == start + link(head, rest));
    crate::keys::lemma_begins_after(start, link(head, rest), link(a, b + seq![':']));
    lemma_link_begins(head, rest, a, b + seq![':']);
}

proof fn lemma_scope_words()
    ensures
        !"db"@.contains(':'),
        !"scope"@.contains(':'),
        "db"@ != "scope"@,
        "metadata"@.len() == 8,
        "list_databases"@.len() == 14,
        "metadata"@[0] != "list_databases"@[0],
{
    reveal_strlit("db");
    reveal_strlit("scope");
    reveal_strlit("metadata");
    reveal_strlit("list_databases");
    assert("db"@.len() == 2);
    assert("db"@[0] == 'd' && "db"@[1] == 'b');
    assert("scope"@.len() == 5);
    assert("scope"@[0] == 's' && "scope"@[1] == 'c' && "scope"@[2] == 'o' && "scope"@[3] == 'p'
        && "scope"@[4] == 'e');
}

/// A part that begins with another part and a colon is that part, where neither
/// holds a colon.
proof fn lemma_first_part(s: Seq<char>, rest: Seq<char>, d: Seq<char>)
    requires
        !s.contains(':'),
        !d.contains(':'),
    ensures
        begins_with(link(s, rest), d + seq![':']) <==> s == d,
{
    if begins_with(link(s, rest), d + seq![':']) {
        crate::keys::lemma_link_parts(s, rest, d);
    }
    if s == d {
        assert(link(s, rest).subrange(0, (d + seq![':']).len() as int) == d + seq![':']);
    }
}

/// The pattern of a database covers the cached responses about that database
/// and no others; the pattern of the lists of databases covers those lists and
/// nothing else.
pub proof fn lemma_cache_patterns_cover(prefix: Seq<char>, r: RequestView, db: Seq<char>)
    requires
        is_cacheable(r),
    ensures
        cache_name(prefix, r) is Some,
        covers(cached_database_pattern(prefix, db), cache_name(prefix, r)->Some_0)
            <==> is_about_database(r) && scope_database(r) == db,
        covers(cached_list_pattern(prefix), cache_name(prefix, r)->Some_0) <==> r.msg_type
            == "list_databases"@,
{
    lemma_cache_name_parts(prefix, r);
    let hex = choose|hex: Seq<char>|
        cache_name(prefix, r)->Some_0 == link(
            prefix,
            link(scope_head(r), #[trigger] link(scope_inner(r), hex)),
        );
    let inner = scope_inner(r);
    let l = "list_databases"@;
    lemma_scope_words();
    lemma_pattern_covers(prefix, "db"@, segment(db), scope_head(r), link(inner, hex));
    lemma_pattern_covers(prefix, "scope"@, l, scope_head(r), link(inner, hex));
    if is_about_database(r) {
        let s = segment(scope_database(r));
        crate::text::lemma_segment_has_no_separator(scope_database(r));
        crate::text::lemma_segment_has_no_separator(db);
        assert(link(inner, hex) == link(s, link(scope_rest(r), hex)));
        lemma_first_part(s, link(scope_rest(r), hex), segment(db));
        if s == segment(db) {
            crate::text::lemma_segment_injective(scope_database(r), db);
        }
    } else if r.msg_type == "metadata"@ {
        if begins_with(link(inner, hex), l + seq![':']) {
            assert(link(inner, hex).subrange(0, (l + seq![':']).len() as int)[0] == l[0]);
            assert(link(inner, hex)[0] == inner[0]);
        }
    } else {
        assert(link(inner, hex).subrange(0, (l + seq![':']).len() as int) == l + seq![':']);
    }
}

/// Responses about different databases are cached under different names.
pub proof fn lemma_cache_names_differ(prefix: Seq<char>, a: RequestView, b: RequestView)
    requires
        is_about_database(a),
        is_cacheable(b),
        cache_name(prefix, a) == cache_name(prefix, b),
    ensures
        is_about_database(b),
        scope_database(a) == scope_database(b),
{
    lemma_cache_patterns_cover(prefix, a, scope_database(a));
    lemma_cache_patterns_cover(prefix, b, scope_database(a));
}

/// Links with parts that hold no colon begin alike only where the first parts
/// are the same and the rests begin alike.
proof fn lemma_link_begins(a: Seq<char>, x: Seq<char>, b: Seq<char>, y: Seq<char>)
    requires
        !a.contains(':'),
        !b.contains(':'),
    ensures
        begins_with(link(a, x), link(b, y)) <==> a == b && begins_with(x, y),
{
    let s = link(a, x);
    let p = link(b, y);
    if begins_with(s, p) {
        let c = b + seq![':'];
        assert(s.subrange(0, c.len() as int) == s.subrange(0, p.len() as int).subrange(
            0,
            c.len() as int,
        ));
        assert(p.subrange(0, c.len() as int) == c);
        crate::keys::lemma_link_parts(a, x, b);
    }
    if a == b {
        let start = a + seq![':'];
        assert(s == start + x && p == start + y);
        crate::keys::lemma_begins_after(start, x, y);
    }
}

} // verus!
