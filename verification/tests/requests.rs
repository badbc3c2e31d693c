use microservicedb::collection::begin_collection_action;
use microservicedb::json::Json;
use microservicedb::request::{
    asks_for_action, cacheable_request_fingerprint, cacheable_request_scope, collection_name, database_name, entry_key,
    error_response, invalid_json_response, is_cacheable_collection_function, is_cacheable_database_function,
    is_cacheable_request, is_mutating_request, mutation_in_result, opt_str, require_collection_name, require_db_name,
    response_indicates_mutation, response_message, success_response, RequestCacheState, WsRequest, WsResponse,
};
use microservicedb::server::{
    action_response, begin_request, cache_entry, cached_response, continue_request, metadata_value, names_response,
    patterns_to_clear, precache_effects, precache_response, process_request, settle_request, CacheCommand, Emitter,
    RequestStep, Route,
};
use microservicedb::database::{begin_database_action, Database};
use microservicedb::wire::{from_text, to_text};

fn j(s: &str) -> Json {
    from_text(s).expect("json")
}

fn action(category: &str, function: &str, payload: &str) -> WsRequest {
    WsRequest {
        msg_type: "action".to_string(),
        category: Some(category.to_string()),
        function_name: Some(function.to_string()),
        payload: Some(j(payload)),
        database_name: None,
        collections: None,
    }
}

fn plain(msg_type: &str, db: Option<&str>) -> WsRequest {
    WsRequest {
        msg_type: msg_type.to_string(),
        category: None,
        function_name: None,
        payload: None,
        database_name: db.map(|s| s.to_string()),
        collections: None,
    }
}

fn cache() -> RequestCacheState {
    RequestCacheState { ttl_seconds: 300, entry_prefix: "rc:entry".to_string() }
}

fn ok(json: &str) -> WsResponse {
    WsResponse { success: true, response_json: json.to_string(), message: "OK".to_string() }
}

fn refused(r: Route) -> String {
    match r {
        Route::Respond(w) => w.message,
        _ => panic!("a response"),
    }
}

#[test]
fn responses_have_their_form() {
    assert_eq!(
        response_message(&success_response(&j("{\"a\":1}"))),
        "{\"success\":true,\"response_json\":\"{\\\"a\\\":1}\",\"message\":\"OK\"}"
    );
    assert_eq!(
        response_message(&error_response("bad")),
        "{\"success\":false,\"response_json\":\"null\",\"message\":\"bad\"}"
    );
    assert_eq!(invalid_json_response("e").message, "Invalid JSON: e");
    assert_eq!(action_response(Err("e".to_string())).message, "e");
    assert_eq!(action_response(Ok(j("1"))).response_json, "1");
    assert_eq!(cached_response("[1]".to_string()).response_json, "[1]");
    assert_eq!(precache_response().response_json, "{\"ok\":true,\"message\":\"Cache established\"}");
}

#[test]
fn names_are_taken_from_payload_and_message() {
    let p = j("{\"database_name\":\"d\",\"collectionName\":\"c\",\"empty\":\"\",\"n\":1}");
    assert_eq!(opt_str(&p, "database_name"), Some("d"));
    assert_eq!(opt_str(&p, "empty"), None);
    assert_eq!(opt_str(&p, "n"), None);
    assert_eq!(collection_name(&p), Some("c"));
    assert_eq!(collection_name(&j("{\"collection_name\":\"x\"}")), Some("x"));
    assert_eq!(require_collection_name(&j("{}")), Err("collectionName is required".to_string()));
    assert_eq!(database_name(&j("{}"), &Some("m".to_string())), Some("m"));
    assert_eq!(database_name(&p, &Some("m".to_string())), Some("d"));
    assert_eq!(require_db_name(&j("{}"), &None), Err("database_name is required".to_string()));
    assert!(asks_for_action("action") && asks_for_action("request") && !asks_for_action("metadata"));
}

#[test]
fn requests_are_told_apart() {
    assert!(is_cacheable_collection_function("find") && !is_cacheable_collection_function("insertOne"));
    assert!(is_cacheable_database_function("exportDatabase") && !is_cacheable_database_function("deleteDatabase"));
    assert!(is_cacheable_request(&plain("list_databases", None)));
    assert!(!is_cacheable_request(&plain("precache", None)));
    assert!(is_cacheable_request(&action("collection", "find", "{}")));
    assert!(is_mutating_request(&action("collection", "deleteMany", "{}")));
    assert!(is_mutating_request(&action("database", "renameCollection", "{}")));
    assert!(!is_mutating_request(&action("collection", "find", "{}")));
    for f in ["insertOne", "updateOne", "replaceOne", "deleteOne", "deleteMany", "updateCollection", "importCollection"] {
        let r = action("collection", f, "{\"database_name\":\"d\"}");
        assert!(is_mutating_request(&r) && !is_cacheable_request(&r));
        assert_eq!(cache().build_key(&r), None);
    }
}

#[test]
fn results_tell_of_changes() {
    assert!(mutation_in_result("collection", "updateOne", &Some(j("{\"modifiedCount\":1}"))));
    assert!(!mutation_in_result("collection", "updateOne", &Some(j("{\"modifiedCount\":0}"))));
    assert!(mutation_in_result("collection", "replaceOne", &Some(j("{\"upsertedCount\":1}"))));
    assert!(!mutation_in_result("collection", "deleteOne", &None));
    assert!(mutation_in_result("collection", "insertOne", &None));
    assert!(!mutation_in_result("database", "deleteCollection", &Some(j("{\"deleted\":false}"))));
    assert!(mutation_in_result("database", "deleteDatabase", &None));
    let r = action("collection", "deleteMany", "{}");
    assert!(response_indicates_mutation(&r, &ok("{\"deletedCount\":2}")));
    assert!(!response_indicates_mutation(&r, &ok("{\"deletedCount\":0}")));
    assert!(!response_indicates_mutation(&r, &error_response("e")));
}

#[test]
fn cached_responses_have_names() {
    let r = action("collection", "find", "{\"database_name\":\"db\",\"collectionName\":\"c\",\"filter\":{}}");
    let key = cache().build_key(&r).unwrap();
    let scope = cacheable_request_scope(&r).unwrap();
    assert!(scope.starts_with("db:6462:"));
    assert!(key.starts_with(&format!("rc:entry:{scope}:")));
    assert!(key.starts_with(cache().database_pattern("db").trim_end_matches('*')));
    assert_eq!(key.len(), format!("rc:entry:{scope}:").len() + 16);
    assert_eq!(entry_key("p", "s", 255), "p:s:00000000000000ff");
    let other = action("collection", "find", "{\"database_name\":\"db\",\"collectionName\":\"c\",\"filter\":{\"a\":1}}");
    assert!(cache().build_key(&other).unwrap() != key);
    assert!(cacheable_request_fingerprint(&r).unwrap() != cacheable_request_fingerprint(&other).unwrap());
    let list = cache().build_key(&plain("list_databases", None)).unwrap();
    assert!(list.starts_with(cache().list_databases_pattern().trim_end_matches('*')));
}

#[test]
fn only_successes_are_cached_and_served_as_they_were() {
    let r = success_response(&j("[1,2]"));
    let (k, v) = cache_entry(Some("k".to_string()), &r).unwrap();
    assert_eq!((k.as_str(), v.as_str()), ("k", "[1,2]"));
    assert_eq!(response_message(&cached_response(v)), response_message(&r));
    assert_eq!(cache_entry(Some("k".to_string()), &error_response("e")), None);
    assert_eq!(cache_entry(None, &r), None);
}

#[test]
fn a_change_clears_the_responses_about_its_database() {
    let r = action("database", "renameDatabase", "{\"database_name\":\"a\",\"new_database_name\":\"b\"}");
    assert_eq!(
        patterns_to_clear(&cache(), &r, &ok("{}")),
        vec!["rc:entry:scope:list_databases:*", "rc:entry:db:61:*", "rc:entry:db:62:*"]
    );
    assert_eq!(patterns_to_clear(&cache(), &r, &error_response("e")).len(), 0);
    let d = action("collection", "deleteOne", "{\"database_name\":\"a\"}");
    assert_eq!(patterns_to_clear(&cache(), &d, &ok("{\"deletedCount\":1}")), vec!["rc:entry:db:61:*"]);
    assert_eq!(patterns_to_clear(&cache(), &d, &ok("{\"deletedCount\":0}")).len(), 0);
    let f = action("collection", "find", "{\"database_name\":\"a\"}");
    assert_eq!(patterns_to_clear(&cache(), &f, &ok("[]")).len(), 0);
}

#[test]
fn requests_go_where_they_belong() {
    assert!(matches!(
        process_request(&action("collection", "find", "{\"database_name\":\"d\"}")),
        Route::Collection { db, function } if db == "d" && function == "find"
    ));
    let mut documented = action("collection", "find", "{\"collection_name\":\"c\"}");
    documented.msg_type = "request".to_string();
    documented.database_name = Some("d".to_string());
    assert!(matches!(process_request(&documented), Route::Collection { db, .. } if db == "d"));
    assert!(matches!(process_request(&action("database", "exportDatabase", "{}")), Route::Database { .. }));
    assert!(matches!(process_request(&plain("list_databases", None)), Route::ListDatabases));
    assert!(matches!(process_request(&plain("list_collections", Some("d"))), Route::ListCollections { db } if db == "d"));
    assert!(matches!(process_request(&plain("precache", Some("d"))), Route::Precache { db, collections } if db == "d" && collections.is_empty()));
    assert_eq!(refused(process_request(&plain("list_collections", None))), "database_name is required");
    assert_eq!(refused(process_request(&plain("precache", None))), "database_name is required");
    assert_eq!(refused(process_request(&plain("nope", None))), "Unknown type");
    assert_eq!(refused(process_request(&action("x", "find", "{}"))), "Unknown category");
    assert_eq!(refused(process_request(&action("collection", "find", "{}"))), "database_name missing in payload");
}

#[test]
fn names_are_listed_in_order() {
    let r = names_response(vec!["b".to_string(), "a".to_string(), "c".to_string()]);
    assert_eq!(r.response_json, "[\"a\",\"b\",\"c\"]");
}

#[test]
fn the_server_tells_of_itself() {
    let m = metadata_value();
    assert_eq!(m.get("api_format").and_then(|v| v.as_str()), Some("websocket.microservicedb.DatabaseService"));
    assert_eq!(m.get("redis_first").and_then(|v| v.as_bool()), Some(true));
    assert_eq!(
        to_text(m.get("functions").unwrap().get("database").unwrap()),
        "[\"createDatabase\",\"deleteDatabase\",\"renameDatabase\",\"createCollection\",\"deleteCollection\",\"renameCollection\",\"exportDatabase\",\"importDatabase\"]"
    );
}

#[test]
fn events_are_told_in_both_forms() {
    let text = Emitter::emit("collection", "insertOne", j("{\"database_name\":\"d\"}"), 7);
    let v = j(&text);
    assert_eq!(v.get("kind").and_then(|x| x.as_str()), Some("change"));
    assert_eq!(v.get("event").and_then(|x| x.as_str()), Some("insertOne"));
    assert_eq!(v.get("ts").and_then(|x| x.as_u64()), Some(7));
    assert_eq!(v.get("success").and_then(|x| x.as_bool()), Some(true));
    assert_eq!(v.get("message").and_then(|x| x.as_str()), Some("change_event"));
    assert_eq!(
        to_text(v.get("response_json").unwrap()),
        "{\"database_name\":\"d\",\"kind\":\"change\",\"category\":\"collection\",\"event\":\"insertOne\",\"ts\":7}"
    );
}

#[test]
fn documents_of_named_collections_are_kept() {
    let mut db = Database::empty();
    db.set_docs("c", vec![j("{\"_id\":\"x\"}"), j("{\"a\":1}")]);
    let e = precache_effects(&db, &vec!["c".to_string(), "none".to_string()]);
    assert_eq!(e.len(), 2);
    assert_eq!((e[0].0.as_str(), e[0].1.len(), e[1].1.len()), ("c", 1, 0));
}

#[test]
fn a_request_is_looked_up_done_and_settled() {
    let find = action("collection", "find", "{\"database_name\":\"d\",\"collectionName\":\"c\"}");
    let name = cache().build_key(&find).unwrap();
    assert!(matches!(begin_request(&Some(cache()), &find), RequestStep::LookUp { key } if key == name));
    assert!(matches!(begin_request(&None, &find), RequestStep::Go(Route::Collection { .. })));
    assert!(matches!(continue_request(&find, Some("[1]".to_string())), RequestStep::Serve(r) if r.response_json == "[1]"));
    assert!(matches!(continue_request(&find, None), RequestStep::Go(Route::Collection { .. })));
    let kept = settle_request(&cache(), &find, &ok("[1]"));
    assert!(matches!(&kept[..], [CacheCommand::Keep { key, ttl_seconds: 300, json }] if *key == name && json == "[1]"));
    assert!(settle_request(&cache(), &find, &error_response("e")).is_empty());
    let insert = action("collection", "insertOne", "{\"database_name\":\"d\"}");
    assert!(matches!(begin_request(&Some(cache()), &insert), RequestStep::Go(_)));
    let stale = settle_request(&cache(), &insert, &ok("{}"));
    assert!(matches!(&stale[..], [CacheCommand::Clear { pattern }] if pattern == "rc:entry:db:64:*"));
    let create = action("database", "createDatabase", "{\"database_name\":\"d\",\"new_database_name\":\"e\"}");
    let stale = settle_request(&cache(), &create, &ok("{\"acknowledged\":true}"));
    assert!(matches!(&stale[1..], [CacheCommand::Clear { pattern: a }, CacheCommand::Clear { pattern: b }]
        if a == "rc:entry:db:64:*" && b == "rc:entry:db:65:*"));
}

#[test]
fn the_listed_functions_are_known() {
    let listed = |category: &str| match metadata_value().get("functions").and_then(|f| f.get(category)) {
        Some(Json::Array(a)) => a.iter().map(|f| f.as_str().unwrap().to_string()).collect::<Vec<_>>(),
        _ => panic!("a list"),
    };
    let payload = j("{\"database_name\":\"d\",\"collectionName\":\"c\",\"data\":[]}");
    assert_eq!(listed("collection").len(), 10);
    for f in listed("collection") {
        assert!(begin_collection_action(&f, &payload).is_ok(), "{f}");
        let req = action("collection", &f, "{}");
        assert!(is_cacheable_request(&req) != is_mutating_request(&req), "{f}");
    }
    assert_eq!(listed("database").len(), 8);
    for f in listed("database") {
        if let Err(e) = begin_database_action(&f, &payload, &None) {
            assert!(!e.starts_with("Unknown"), "{e}");
        }
        let req = action("database", &f, "{}");
        assert!(is_cacheable_request(&req) != is_mutating_request(&req), "{f}");
    }
    assert_eq!(begin_collection_action("drop", &payload).err().unwrap(), "Unknown collection function: drop");
    assert_eq!(
        begin_database_action("drop", &payload, &None).err().unwrap(),
        "Unknown database function: drop"
    );
}

#[test]
fn an_event_is_told_in_both_forms() {
    let v = j(&Emitter::emit("collection", "insertOne", j("{\"collectionName\":\"c\",\"after\":{\"a\":1}}"), 7));
    for e in [&v, v.get("response_json").unwrap()] {
        assert_eq!(e.get("kind").unwrap().as_str(), Some("change"));
        assert_eq!(e.get("category").unwrap().as_str(), Some("collection"));
        assert_eq!(e.get("event").unwrap().as_str(), Some("insertOne"));
        assert_eq!(e.get("collectionName").unwrap().as_str(), Some("c"));
        assert_eq!(e.get("ts").unwrap().as_u64(), Some(7));
        assert_eq!(to_text(e.get("after").unwrap()), "{\"a\":1}");
    }
    assert_eq!(v.get("success").unwrap().as_bool(), Some(true));
    assert_eq!(v.get("message").unwrap().as_str(), Some("change_event"));
}
