use microservicedb::client::{
    answer, finish_request, invalid_shape, DeleteResult, Incoming, InsertResult, LinkAction, LinkEvent,
    MicroserviceDBAPI, Readiness, Registry, RequestEnd, UpdateResult,
};
use microservicedb::findcache::{build_find_cache_key, doc_key, ChangeEvent, FindOptions};
use microservicedb::json::Json;
use microservicedb::server::Emitter;
use microservicedb::url::{normalize_ws_url, resolve_ws_url};
use microservicedb::wire::{from_text, to_text};

fn j(s: &str) -> Json {
    from_text(s).expect("json")
}

fn client() -> MicroserviceDBAPI {
    MicroserviceDBAPI::new("ventas", &Vec::new())
}

fn text(v: Option<Vec<Json>>) -> Option<String> {
    v.map(|a| to_text(&Json::Array(a)))
}

fn names(a: &[&str]) -> Vec<String> {
    a.iter().map(|s| s.to_string()).collect()
}

fn updated(modified: i64, upserted: i64) -> UpdateResult {
    UpdateResult {
        acknowledged: true,
        modified_count: modified,
        upserted_count: upserted,
        upserted_id: Some(j("\"u\"")),
        matched_count: 0,
        extra: Vec::new(),
    }
}

fn change(event: &str, before: Option<&str>, after: Option<&str>) -> String {
    format!(
        "{{\"kind\":\"change\",\"category\":\"collection\",\"event\":\"{event}\",\"collectionName\":\"c\",\"before\":{},\"after\":{}}}",
        before.unwrap_or("null"),
        after.unwrap_or("null")
    )
}

#[test]
fn addresses_are_made_complete() {
    for (raw, want) in [
        ("localhost:3329", "ws://localhost:3329/ws"),
        ("//host", "ws://host/ws"),
        ("http://host/db/", "ws://host/db"),
        ("https://host", "wss://host/ws"),
        (" wss://host/a/b?x=1#y ", "wss://host/a/b"),
        ("ws://host///", "ws://host/ws"),
        ("ws://host/p#f?g", "ws://host/p"),
        ("ftp://host", ""),
        ("", ""),
        ("   ", ""),
        ("ws://host?x=/y", "ws://host?x=/y"),
    ] {
        assert_eq!(normalize_ws_url(raw), want, "{raw}");
    }
}

#[test]
fn an_address_stands_for_itself() {
    for raw in ["host", "//h/a//", "https://h:1/x/?q#f", "ws://h?x=/y", "wss://h/a b/c", " http://h/#/ ", "ftp://h", ""] {
        let once = normalize_ws_url(raw);
        assert_eq!(normalize_ws_url(&once), once, "{raw}");
        assert!(!once.ends_with('/'), "{raw}");
    }
    assert_eq!(normalize_ws_url("WS://h"), "");
    let open = normalize_ws_url("ws://h/a ?q");
    assert_eq!(open, "ws://h/a ");
    assert_eq!(normalize_ws_url(&open), "ws://h/a");
}

#[test]
fn the_first_setting_that_is_an_address_counts() {
    let pair = |k: &str, v: &str| (k.to_string(), v.to_string());
    assert_eq!(resolve_ws_url(&Vec::new()), "ws://127.0.0.1:3329/ws");
    assert_eq!(
        resolve_ws_url(&vec![pair("MICROSERVICEDB_DATABASE_BASE_URL", "c"), pair("MICROSERVICEDB_DATABASE_URL", "b")]),
        "ws://b/ws"
    );
    assert_eq!(
        resolve_ws_url(&vec![pair("MICROSERVICEDB_DATABASE_WS_URL", "ftp://x"), pair("MICROSERVICEDB_DATABASE_BASE_URL", "c")]),
        "ws://c/ws"
    );
}

#[test]
fn there_is_one_client_per_database() {
    let mut r = Registry { names: Vec::new() };
    let (a, new) = MicroserviceDBAPI::get_instance(&mut r, "x", &names(&["c", ""]));
    assert_eq!((a, new.unwrap().precache_collections), (0, names(&["c"])));
    let (b, new) = MicroserviceDBAPI::get_instance(&mut r, "y", &Vec::new());
    assert_eq!((b, new.is_some()), (1, true));
    let (c, new) = MicroserviceDBAPI::get_instance(&mut r, "x", &Vec::new());
    assert_eq!((c, new.is_some()), (0, false));
    let mut k = MicroserviceDBAPI::new("x", &names(&["a", "a", "b"]));
    k.add_collections(&names(&["b", "", "d"]));
    assert_eq!(k.precache_collections, names(&["a", "b", "d"]));
    k.add_collections(&Vec::new());
    assert_eq!(k.precache_collections, names(&["a", "b", "d"]));
}

#[test]
fn requests_have_their_form() {
    let c = client();
    assert_eq!(
        to_text(&c.insert_one("c", &j("{\"a\":1}"))),
        "{\"type\":\"action\",\"category\":\"collection\",\"function_name\":\"insertOne\",\"payload\":{\"database_name\":\"ventas\",\"collectionName\":\"c\",\"document\":{\"a\":1}}}"
    );
    assert_eq!(to_text(c.find_one("c", &j("{}")).get("payload").unwrap()), "{\"database_name\":\"ventas\",\"collectionName\":\"c\",\"filter\":{}}");
    let o = FindOptions {
        sort: Some(vec![("a".to_string(), -1), ("b".to_string(), 1)]),
        projection: None,
        limit: Some(5),
        skip: Some(-2),
    };
    assert_eq!(
        to_text(c.find("c", &None, &Some(o)).get("payload").unwrap()),
        "{\"database_name\":\"ventas\",\"collectionName\":\"c\",\"filter\":{},\"sort\":{\"a\":-1,\"b\":1},\"limit\":5,\"skip\":-2}"
    );
    assert_eq!(to_text(c.update_collection("c", &j("[]")).get("payload").unwrap().get("data").unwrap()), "[]");
    assert_eq!(
        to_text(c.update_one("c", &j("{\"a\":1}"), &j("{\"$set\":{}}"), &None).get("payload").unwrap()),
        "{\"database_name\":\"ventas\",\"collectionName\":\"c\",\"filter\":{\"a\":1},\"update\":{\"$set\":{}},\"options\":{}}"
    );
    assert_eq!(
        to_text(c.replace_one("c", &j("{}"), &j("{}"), &Some(j("{\"upsert\":true}"))).get("payload").unwrap().get("options").unwrap()),
        "{\"upsert\":true}"
    );
    assert_eq!(c.delete_one("c", &j("{}")).get("function_name").and_then(|v| v.as_str()), Some("deleteOne"));
    assert_eq!(to_text(&c.get_metadata()), "{\"type\":\"metadata\",\"database_name\":\"ventas\"}");
    assert!(c.precache_request().is_none());
    let p = MicroserviceDBAPI::new("d", &names(&["a", "b"]));
    assert_eq!(to_text(&p.precache_request().unwrap()), "{\"type\":\"precache\",\"database_name\":\"d\",\"collections\":[\"a\",\"b\"]}");
}

#[test]
fn names_of_kept_results_tell_queries_apart() {
    assert_eq!(
        build_find_cache_key("c", &j("{}"), &FindOptions::default()),
        "{\"collectionName\":\"c\",\"query\":{},\"options\":{\"sort\":null,\"projection\":null,\"limit\":null,\"skip\":null}}"
    );
    assert_eq!(doc_key(&j("{\"_id\":\"a\"}")).as_deref(), Some("\"a\""));
    assert_eq!(doc_key(&j("{}")), None);
    assert_eq!(doc_key(&j("[]")), None);
}

#[test]
fn what_was_found_is_kept() {
    let mut c = client();
    assert_eq!(text(c.found("c", &None, &None, j("[{\"_id\":1}]"))).as_deref(), Some("[{\"_id\":1}]"));
    assert_eq!(text(c.get_cached_find("c", &None, &None)).as_deref(), Some("[{\"_id\":1}]"));
    assert_eq!(text(c.get_cached_find("c", &Some(j("{\"a\":1}")), &None)), None);
    assert_eq!(text(c.found("c", &None, &None, j("null"))), None);
    assert_eq!(text(c.found("d", &None, &None, j("{\"a\":1}"))).as_deref(), Some("[{\"a\":1}]"));
    assert_eq!(c.find_cache.len(), 2);
    assert!(MicroserviceDBAPI::found_one(j("null")).is_none());
    assert!(MicroserviceDBAPI::found_one(j("{}")).is_some());
}

#[test]
fn an_insertion_comes_first_in_what_is_kept() {
    let mut c = client();
    let limit = Some(FindOptions { limit: Some(2), ..FindOptions::default() });
    c.found("c", &None, &limit, j("[{\"_id\":1},{\"_id\":2}]"));
    c.found("c", &Some(j("{\"a\":1}")), &None, j("[]"));
    c.found("d", &None, &None, j("[]"));
    let r = InsertResult { acknowledged: true, inserted_id: Some(j("3")), extra: Vec::new() };
    let e = c.inserted("c", &j("{\"a\":9}"), &r);
    assert_eq!(e.after.map(|v| to_text(&v)).as_deref(), Some("{\"a\":9,\"_id\":3}"));
    assert_eq!(text(c.get_cached_find("c", &None, &limit)).as_deref(), Some("[{\"a\":9,\"_id\":3},{\"_id\":1}]"));
    assert_eq!(text(c.get_cached_find("c", &Some(j("{\"a\":1}")), &None)), None);
    assert_eq!(text(c.get_cached_find("d", &None, &None)).as_deref(), Some("[]"));
}

#[test]
fn an_update_drops_what_is_kept_of_its_collection() {
    let mut c = client();
    c.found("c", &None, &None, j("[]"));
    c.found("d", &None, &None, j("[]"));
    c.updated("c", &updated(0, 0));
    assert!(c.get_cached_find("c", &None, &None).is_some());
    c.updated("c", &updated(1, 0));
    assert!(c.get_cached_find("c", &None, &None).is_none());
    assert!(c.get_cached_find("d", &None, &None).is_some());
}

#[test]
fn a_replacement_or_deletion_reaches_what_is_kept() {
    let mut c = client();
    c.found("c", &None, &None, j("[{\"_id\":1},{\"_id\":2}]"));
    let e = c.replaced("c", &j("{\"_id\":2}"), &j("{\"a\":1}"), &updated(1, 0)).unwrap();
    assert_eq!(e.before.map(|v| to_text(&v)).as_deref(), Some("{\"_id\":2}"));
    assert_eq!(text(c.get_cached_find("c", &None, &None)).as_deref(), Some("[{\"a\":1,\"_id\":2},{\"_id\":1}]"));
    assert!(c.replaced("c", &j("{\"_id\":2}"), &j("{}"), &updated(0, 0)).is_none());
    let e = c.replaced("c", &j("{\"x\":2}"), &j("{\"a\":1}"), &updated(0, 1)).unwrap();
    assert_eq!(e.after.map(|v| to_text(&v)).as_deref(), Some("{\"a\":1,\"_id\":\"u\"}"));
    let gone = DeleteResult { acknowledged: true, deleted_count: 1, extra: Vec::new() };
    assert!(c.deleted("c", &j("{\"_id\":1}"), &gone).is_some());
    assert_eq!(
        text(c.get_cached_find("c", &None, &None)).as_deref(),
        Some("[{\"a\":1,\"_id\":\"u\"},{\"a\":1,\"_id\":2}]")
    );
    let none = DeleteResult { acknowledged: true, deleted_count: 0, extra: Vec::new() };
    assert!(c.deleted("c", &j("{\"_id\":2}"), &none).is_none());
}

#[test]
fn changes_that_are_told_reach_what_is_kept() {
    let mut c = client();
    c.found("c", &None, &None, j("[{\"_id\":1},{\"_id\":2}]"));
    let none: Vec<u64> = Vec::new();
    assert!(matches!(c.dispatch_incoming(&change("updateOne", Some("{\"_id\":2}"), Some("{\"_id\":2,\"a\":1}")), &none), Incoming::Changed { .. }));
    assert_eq!(text(c.get_cached_find("c", &None, &None)).as_deref(), Some("[{\"_id\":2,\"a\":1},{\"_id\":1}]"));
    c.dispatch_incoming(&change("deleteOne", Some("{\"_id\":2}"), None), &none);
    assert_eq!(text(c.get_cached_find("c", &None, &None)).as_deref(), Some("[{\"_id\":1}]"));
    c.dispatch_incoming(&change("deleteMany", None, None), &none);
    assert!(c.get_cached_find("c", &None, &None).is_none());
}

#[test]
fn an_event_of_the_server_is_understood() {
    let mut c = client();
    let payload = j("{\"database_name\":\"ventas\",\"collectionName\":\"c\",\"before\":null,\"after\":{\"_id\":1},\"summary\":{}}");
    let message = Emitter::emit("collection", "insertOne", payload, 7);
    match c.dispatch_incoming(&message, &Vec::new()) {
        Incoming::Changed { event: ChangeEvent { category, collection_name, event, before, after } } => {
            assert_eq!((category.as_str(), collection_name.as_str(), event.as_str()), ("collection", "c", "insertOne"));
            assert!(before.is_none());
            assert_eq!(after.map(|v| to_text(&v)).as_deref(), Some("{\"_id\":1}"));
        },
        _ => panic!("a change"),
    }
}

#[test]
fn answers_come_in_the_order_of_the_requests() {
    let mut c = client();
    c.supervise(LinkEvent::Opened, &Vec::new());
    assert!(c.submit(1, j("{}")).is_some());
    assert!(c.submit(2, j("{}")).is_some());
    assert!(c.submit(3, j("{}")).is_some());
    let ok = "{\"success\":true,\"response_json\":\"[1]\",\"message\":\"OK\"}";
    match c.dispatch_incoming(ok, &vec![2, 3]) {
        Incoming::Answered { request: Some(2), payload: Ok(v) } => assert_eq!(to_text(&v), "[1]"),
        _ => panic!("an answer"),
    }
    match c.dispatch_incoming("{\"success\":false,\"response_json\":null}", &vec![3]) {
        Incoming::Answered { request: Some(3), payload: Err(e) } => assert_eq!(e, "Action failed"),
        _ => panic!("an answer"),
    }
    assert!(matches!(c.dispatch_incoming(ok, &Vec::new()), Incoming::Answered { request: None, .. }));
}

#[test]
fn other_messages_are_ignored() {
    let mut c = client();
    for m in ["nope", "{}", "[1]", "{\"success\":1}", "{\"kind\":\"change\"}", "{\"success\":true,\"response_json\":5}", "{\"success\":true,\"message\":[]}"] {
        assert!(matches!(c.dispatch_incoming(m, &Vec::new()), Incoming::Ignored), "{m}");
    }
    assert_eq!(to_text(&answer(true, None, None).unwrap()), "null");
    assert_eq!(answer(false, None, Some("m".to_string())).map(|_| ()), Err("m".to_string()));
}

#[test]
fn messages_wait_for_a_connection() {
    let mut c = client();
    assert!(c.send(j("1")).is_none());
    assert!(c.submit(7, j("2")).is_none());
    assert!(matches!(c.ensure_ready(0), Readiness::Wait));
    assert!(matches!(c.ensure_ready(50), Readiness::Unavailable { error } if error == "WebSocket not available"));
    assert_eq!(to_text(&Json::Array(c.take_offline())), "[1,2]");
    assert_eq!(c.take_offline().len(), 0);
    c.supervise(LinkEvent::Opened, &Vec::new());
    assert!(matches!(c.ensure_ready(49), Readiness::Ready));
}

#[test]
fn a_lost_connection_refuses_requests_and_is_made_again() {
    let mut c = client();
    let env: Vec<(String, String)> = Vec::new();
    assert!(matches!(c.supervise(LinkEvent::Begin, &env), LinkAction::Connect { url } if url == "ws://127.0.0.1:3329/ws"));
    assert!(matches!(c.supervise(LinkEvent::Opened, &env), LinkAction::Poll { outgoing: true }));
    assert!(matches!(c.supervise(LinkEvent::Outgoing { message: j("{\"a\":1}") }, &env), LinkAction::Send { text } if text == "{\"a\":1}"));
    assert!(matches!(c.supervise(LinkEvent::Text { text: "x".to_string() }, &env), LinkAction::Dispatch { text } if text == "x"));
    assert!(matches!(c.supervise(LinkEvent::OutgoingClosed, &env), LinkAction::Poll { outgoing: false }));
    assert!(matches!(c.supervise(LinkEvent::Skipped, &env), LinkAction::Poll { outgoing: false }));
    assert!(matches!(c.supervise(LinkEvent::Tick, &env), LinkAction::Poll { outgoing: false }));
    c.submit(4, j("{}"));
    assert!(matches!(c.supervise(LinkEvent::Ended, &env), LinkAction::Wait { rejected, reason } if rejected == vec![4] && reason == "WebSocket disconnected"));
    assert!(!c.ready);
}

#[test]
fn a_closed_client_stops() {
    let mut c = client();
    let env: Vec<(String, String)> = Vec::new();
    c.supervise(LinkEvent::Opened, &env);
    c.found("c", &None, &None, j("[]"));
    c.submit(4, j("{}"));
    let (rejected, reason) = c.close();
    assert_eq!((rejected, reason.as_str()), (vec![4], "MicroserviceDBAPI closed"));
    assert!(c.get_cached_find("c", &None, &None).is_none());
    c.submit(5, j("{}"));
    assert!(matches!(c.supervise(LinkEvent::Tick, &env), LinkAction::Stop { rejected, close: true, .. } if rejected == vec![5]));
    assert!(matches!(c.supervise(LinkEvent::Begin, &env), LinkAction::Stop { close: false, .. }));
    assert!(matches!(c.supervise(LinkEvent::Ended, &env), LinkAction::Stop { .. }));
}

#[test]
fn requests_come_to_an_end() {
    assert_eq!(finish_request(RequestEnd::Cancelled).map(|_| ()), Err("Request cancelled".to_string()));
    assert_eq!(finish_request(RequestEnd::TimedOut).map(|_| ()), Err("Request timeout".to_string()));
    assert_eq!(to_text(&finish_request(RequestEnd::Answered { payload: Ok(j("1")) }).unwrap()), "1");
    assert_eq!(invalid_shape("e"), "Invalid response shape: e");
    assert_eq!(to_text(&MicroserviceDBAPI::metadata(Err("e".to_string()))), "null");
}

#[test]
fn a_listener_is_taken_back_by_its_own_undo() {
    let mut c = client();
    c.subscribe(1);
    c.subscribe(2);
    assert!(c.unsubscribe(1));
    assert_eq!(c.listeners, vec![2]);
    assert!(!c.unsubscribe(1));
    assert!(c.unsubscribe(2));
    assert!(!c.unsubscribe(2));
    for id in [3, 4, 3, 5] {
        c.subscribe(id);
    }
    assert!(c.unsubscribe(3));
    assert_eq!(c.listeners, vec![3, 4, 5]);
}
