use microservicedb::collection::{
    are_objects, begin_collection_action, find_one_result, handle_collection_action, is_reserved_collection,
    observed_fields, put_all, resolve_docs_redis_first, resolve_fetched, resolve_loaded, resolve_replies,
    CollectionStep, Effect, Outcome, ResolveAction,
};
use microservicedb::filter::match_filter;
use microservicedb::json::Json;
use microservicedb::keys::{document_id, RedisDocumentCache, RedisIndexManager};
use microservicedb::request::mutation_in_result;
use microservicedb::select::Query;
use microservicedb::wire::{from_text, to_text};

fn j(s: &str) -> Json {
    from_text(s).expect("json")
}

fn list(s: &str) -> Vec<Json> {
    match j(s) {
        Json::Array(a) => a,
        _ => panic!("a list"),
    }
}

fn run(func: &str, payload: &str, docs: &str) -> Outcome {
    handle_collection_action("db", "c", func, &j(payload), list(docs)).expect("an outcome")
}

fn refused(func: &str, payload: &str) -> String {
    match handle_collection_action("db", "c", func, &j(payload), Vec::new()) {
        Err(e) => e,
        Ok(_) => panic!("an error"),
    }
}

fn docs(o: &Outcome) -> String {
    to_text(&Json::Array(o.docs.clone()))
}

fn names(o: &Outcome) -> Vec<String> {
    o.effects
        .iter()
        .map(|e| match e {
            Effect::Unindex { .. } => "unindex".to_string(),
            Effect::Index { .. } => "index".to_string(),
            Effect::CacheDoc { id, .. } => format!("cache {id}"),
            Effect::UncacheDoc { id } => format!("uncache {id}"),
            Effect::DropIndexes => "drop".to_string(),
            Effect::InvalidateDocs => "invalidate".to_string(),
            Effect::Save => "save".to_string(),
            Effect::Emit { event, .. } => format!("emit {event}"),
        })
        .collect()
}

fn payload_of(o: &Outcome) -> String {
    match o.effects.last() {
        Some(Effect::Emit { payload, .. }) => to_text(payload),
        _ => panic!("an event"),
    }
}

fn query(filter: &str) -> Query {
    Query { filter: j(filter), sort: None, projection: None, limit: None, skip: 0 }
}

#[test]
fn an_inserted_document_is_kept_indexed_and_told_of() {
    let o = run("insertOne", "{\"document\":{\"_id\":\"k\",\"a\":1}}", "[]");
    assert_eq!(docs(&o), "[{\"_id\":\"k\",\"a\":1}]");
    assert_eq!(to_text(&o.result), "{\"acknowledged\":true,\"insertedId\":\"k\"}");
    assert_eq!(names(&o), vec!["save", "index", "cache k", "emit insertOne"]);
    assert_eq!(
        payload_of(&o),
        "{\"database_name\":\"db\",\"collectionName\":\"c\",\"before\":null,\"after\":{\"_id\":\"k\",\"a\":1},\"summary\":{\"insertedId\":\"k\"}}"
    );
    assert_eq!(refused("insertOne", "{}"), "document is required");
}

#[test]
fn an_inserted_document_is_found() {
    let o = run("insertOne", "{\"document\":{\"_id\":\"k\",\"a\":1}}", "[{\"_id\":\"z\",\"a\":1}]");
    let (found, _) = resolve_loaded(&query("{\"_id\":\"k\"}"), &o.docs);
    assert_eq!(to_text(&Json::Array(found)), "[{\"_id\":\"k\",\"a\":1}]");
}

#[test]
fn an_update_changes_the_first_match() {
    let o = run("updateOne", "{\"filter\":{\"a\":1},\"update\":{\"$set\":{\"b\":2}}}", "[{\"a\":0},{\"_id\":\"k\",\"a\":1},{\"a\":1}]");
    assert_eq!(docs(&o), "[{\"a\":0},{\"_id\":\"k\",\"a\":1,\"b\":2},{\"a\":1}]");
    assert_eq!(
        to_text(&o.result),
        "{\"acknowledged\":true,\"matchedCount\":1,\"modifiedCount\":1,\"upsertedCount\":0,\"upsertedId\":null}"
    );
    assert_eq!(names(&o), vec!["unindex", "index", "cache k", "save", "emit updateOne"]);
    assert_eq!(refused("updateOne", "{}"), "update is required");
}

#[test]
fn an_update_without_a_match_changes_nothing_unless_it_may_add() {
    let o = run("updateOne", "{\"filter\":{\"a\":9},\"update\":{\"$set\":{\"b\":2}}}", "[{\"a\":0}]");
    assert_eq!(docs(&o), "[{\"a\":0}]");
    assert!(o.effects.is_empty());
    for up in ["{\"filter\":{\"a\":9},\"update\":{\"$set\":{\"b\":2}},\"upsert\":true}", "{\"filter\":{\"a\":9},\"update\":{\"$set\":{\"b\":2}},\"options\":{\"upsert\":true}}"] {
        let o = run("updateOne", up, "[{\"a\":0}]");
        assert_eq!(docs(&o), "[{\"a\":0},{\"a\":9,\"b\":2}]");
        assert_eq!(o.result.get("upsertedCount").and_then(|v| v.as_u64()), Some(1));
    }
}

#[test]
fn a_replacement_keeps_the_id() {
    let o = run("replaceOne", "{\"filter\":{\"a\":1},\"replacement\":{\"b\":2}}", "[{\"_id\":\"k\",\"a\":1}]");
    assert_eq!(o.docs[0].get("_id").and_then(|v| v.as_str()), Some("k"));
    assert_eq!(o.docs[0].get("b").and_then(|v| v.as_u64()), Some(2));
    assert!(o.docs[0].get("a").is_none());
    assert_eq!(refused("replaceOne", "{}"), "replacement is required");
}

#[test]
fn deletions_take_out_what_the_filter_selects() {
    let o = run("deleteOne", "{\"filter\":{\"a\":1}}", "[{\"a\":0},{\"_id\":\"k\",\"a\":1},{\"a\":1}]");
    assert_eq!(docs(&o), "[{\"a\":0},{\"a\":1}]");
    assert_eq!(to_text(&o.result), "{\"acknowledged\":true,\"deletedCount\":1}");
    assert_eq!(names(&o), vec!["unindex", "uncache k", "save", "emit deleteOne"]);
    let o = run("deleteMany", "{\"filter\":{\"a\":1}}", "[{\"a\":0},{\"_id\":\"k\",\"a\":1},{\"a\":1}]");
    assert_eq!(docs(&o), "[{\"a\":0}]");
    assert_eq!(to_text(&o.result), "{\"acknowledged\":true,\"deletedCount\":2}");
    assert!(!o.docs.iter().any(|d| match_filter(d, &j("{\"a\":1}"))));
    let o = run("deleteMany", "{\"filter\":{\"a\":7}}", "[{\"a\":0}]");
    assert!(o.effects.is_empty());
}

#[test]
fn a_collection_is_updated_by_data_filter_or_batch() {
    let o = run("updateCollection", "{\"data\":[{\"_id\":\"k\",\"a\":2},{\"_id\":\"n\"},5]}", "[{\"_id\":\"k\",\"a\":1}]");
    assert_eq!(docs(&o), "[{\"_id\":\"k\",\"a\":2},{\"_id\":\"n\"}]");
    assert_eq!(to_text(&o.result), "{\"acknowledged\":true,\"insertedCount\":1,\"modifiedCount\":1}");
    let o = run("updateCollection", "{\"filter\":{\"a\":1},\"update\":{\"$set\":{\"b\":1}}}", "[{\"a\":1},{\"a\":2},{\"a\":1}]");
    assert_eq!(docs(&o), "[{\"a\":1,\"b\":1},{\"a\":2},{\"a\":1,\"b\":1}]");
    assert_eq!(to_text(&o.result), "{\"acknowledged\":true,\"matchedCount\":2,\"modifiedCount\":2}");
    let o = run(
        "updateCollection",
        "{\"updates\":[{\"filter\":{\"a\":1},\"update\":{\"$set\":{\"a\":5}}},{\"filter\":{\"a\":5},\"update\":{\"$set\":{\"c\":1}}}]}",
        "[{\"a\":1}]",
    );
    assert_eq!(docs(&o), "[{\"a\":5,\"c\":1}]");
    assert_eq!(refused("updateCollection", "{}"), "update is required");
}

#[test]
fn exports_and_imports_agree() {
    let all = "[{\"_id\":\"k\",\"a\":1},{\"b\":2}]";
    let e = run("exportCollection", "{}", all);
    assert_eq!(to_text(&e.result), all);
    assert!(e.effects.is_empty());
    let i = run("importCollection", &format!("{{\"mode\":\"replace\",\"data\":{}}}", to_text(&e.result)), "[{\"x\":1}]");
    assert_eq!(docs(&i), all);
    assert_eq!(names(&i), vec!["drop", "invalidate", "save", "index", "index", "cache k", "emit importCollection"]);
}

#[test]
fn imports_have_modes_and_names_for_their_data() {
    let start = "[{\"_id\":\"k\",\"a\":1}]";
    let a = run("importCollection", "{\"mode\":\"append\",\"documents\":[{\"_id\":\"k\",\"a\":2}]}", start);
    assert_eq!(docs(&a), "[{\"_id\":\"k\",\"a\":1},{\"_id\":\"k\",\"a\":2}]");
    let m = run("importCollection", "{\"items\":[{\"_id\":\"k\",\"a\":2},{\"_id\":\"l\"}]}", start);
    assert_eq!(docs(&m), "[{\"_id\":\"k\",\"a\":2},{\"_id\":\"l\"}]");
    assert_eq!(refused("importCollection", "{}"), "data is required (array of documents)");
    assert_eq!(refused("importCollection", "{\"data\":5}"), "data must be a JSON array");
    assert_eq!(refused("importCollection", "{\"docs\":[1]}"), "All documents must be JSON objects");
}

#[test]
fn unknown_functions_and_reserved_names_are_refused() {
    assert_eq!(refused("nope", "{}"), "Unknown collection function: nope");
    assert_eq!(begin_collection_action("find", &j("{}")).map(|_| ()), Err("collectionName is required".to_string()));
    assert_eq!(
        begin_collection_action("find", &j("{\"collectionName\":\"system.x\"}")).map(|_| ()),
        Err("Collection 'system.x' is reserved and cannot be modified".to_string())
    );
    assert!(is_reserved_collection("__mdb_placeholder_empty__"));
    assert!(!is_reserved_collection("c"));
    assert_eq!(
        begin_collection_action("nope", &j("{\"collectionName\":\"c\"}")).map(|_| ()),
        Err("Unknown collection function: nope".to_string())
    );
    assert_eq!(
        begin_collection_action("importCollection", &j("{\"collectionName\":\"c\"}")).map(|_| ()),
        Err("data is required (array of documents)".to_string())
    );
}

#[test]
fn queries_are_read_from_the_payload() {
    let p = j("{\"collection_name\":\"c\",\"filter\":{\"a\":1},\"options\":{\"sort\":{\"a\":-1},\"limit\":50,\"skip\":2}}");
    match begin_collection_action("find", &p) {
        Ok((name, CollectionStep::Find(q))) => {
            assert_eq!(name, "c");
            assert_eq!(to_text(&q.filter), "{\"a\":1}");
            assert_eq!(to_text(&q.sort.unwrap()), "{\"a\":-1}");
            assert_eq!((q.limit, q.skip), (Some(50), 2));
        },
        _ => panic!("a query"),
    }
    match begin_collection_action("findOne", &j("{\"collectionName\":\"c\",\"query\":{\"a\":1}}")) {
        Ok((_, CollectionStep::FindOne(q))) => assert_eq!((to_text(&q.filter).as_str(), q.limit), ("{\"a\":1}", Some(1))),
        _ => panic!("a query"),
    }
    assert!(matches!(begin_collection_action("insertOne", &j("{\"collectionName\":\"c\"}")), Ok((_, CollectionStep::Load))));
}

#[test]
fn one_document_is_the_first_or_null() {
    let q = query("{}");
    assert_eq!(to_text(&find_one_result(&q, &Vec::new())), "null");
    assert_eq!(to_text(&find_one_result(&q, &list("[{\"a\":1},{\"a\":2}]"))), "{\"a\":1}");
}

#[test]
fn queries_go_to_the_indexes_first() {
    let m = RedisIndexManager { prefix: "idx".to_string() };
    let q = query("{\"s\":\"x\"}");
    assert!(matches!(resolve_docs_redis_first(&q, true, Some(&m), "db", "c"), ResolveAction::Lookup { .. }));
    assert!(matches!(resolve_docs_redis_first(&q, false, Some(&m), "db", "c"), ResolveAction::Load));
    assert!(matches!(resolve_docs_redis_first(&q, true, None, "db", "c"), ResolveAction::Load));
    assert!(matches!(resolve_docs_redis_first(&query("{}"), true, Some(&m), "db", "c"), ResolveAction::Load));
    assert!(matches!(resolve_replies(&q, &vec![vec!["k".to_string()]]), ResolveAction::Fetch { ids } if ids == vec!["k"]));
    assert!(matches!(resolve_replies(&q, &vec![Vec::new()]), ResolveAction::Load));
    let f = resolve_fetched(&q, &vec![Some(j("{\"s\":\"x\"}")), None, Some(j("{\"s\":\"y\"}"))]);
    assert_eq!(to_text(&Json::Array(f)), "[{\"s\":\"x\"}]");
    let (found, effects) = resolve_loaded(&q, &list("[{\"_id\":\"k\",\"s\":\"x\"},{\"s\":\"y\"}]"));
    assert_eq!((found.len(), effects.len()), (1, 1));
}

#[test]
fn queried_fields_are_observed() {
    let p = j("{\"filter\":{\"a\":1,\"b\":{\"$gt\":2}}}");
    for f in ["find", "findOne", "updateOne", "deleteOne"] {
        assert_eq!(observed_fields(f, &p), vec!["a", "b"], "{f}");
    }
    assert_eq!(observed_fields("insertOne", &p).len(), 0);
}

#[test]
fn putting_documents_in_keeps_ids_unique() {
    let b = put_all(list("[{\"_id\":\"a\"},{\"_id\":\"b\"}]"), &list("[{\"_id\":\"b\",\"n\":1},{\"_id\":\"c\"},{\"_id\":\"c\",\"n\":2}]"));
    assert_eq!(to_text(&Json::Array(b.docs)), "[{\"_id\":\"a\"},{\"_id\":\"b\",\"n\":1},{\"_id\":\"c\",\"n\":2}]");
    assert_eq!((b.inserted, b.modified), (1, 2));
    assert!(are_objects(&list("[{},{}]")) && !are_objects(&list("[{},1]")));
}

#[test]
fn a_kept_document_is_found_by_its_id() {
    let doc = j("{\"_id\":\"x\",\"n\":[1,{\"a\":null}],\"t\":\"5\"}");
    let q = query("{\"_id\":\"x\"}");
    match resolve_replies(&q, &Vec::new()) {
        ResolveAction::Fetch { ids } => assert_eq!(ids, vec![document_id(&doc).unwrap()]),
        _ => panic!("a fetch"),
    }
    let mut fields = RedisDocumentCache::doc_fields(&doc).unwrap();
    fields.reverse();
    let found = resolve_fetched(&q, &vec![RedisDocumentCache::doc_from_fields(&fields)]);
    assert_eq!(
        to_text(&Json::Array(found)),
        "[{\"t\":\"5\",\"n\":[1,{\"a\":null}],\"_id\":\"x\"}]"
    );
}

#[test]
fn changes_are_saved_and_their_results_tell_of_them() {
    let cases = [
        ("insertOne", "{\"document\":{\"_id\":9}}"),
        ("updateOne", "{\"filter\":{\"_id\":1},\"update\":{\"$set\":{\"n\":2}}}"),
        ("replaceOne", "{\"filter\":{\"_id\":5},\"replacement\":{\"a\":1},\"upsert\":true}"),
        ("deleteOne", "{\"filter\":{\"_id\":1}}"),
        ("deleteMany", "{}"),
        ("updateCollection", "{\"data\":[{\"_id\":7}]}"),
        ("updateCollection", "{\"update\":{\"$inc\":{\"n\":1}}}"),
        ("updateCollection", "{\"updates\":[{\"filter\":{\"_id\":8},\"update\":{\"n\":1},\"upsert\":true}]}"),
        ("importCollection", "{\"data\":[]}"),
    ];
    for (func, payload) in cases {
        let o = run(func, payload, "[{\"_id\":1},{\"_id\":2}]");
        assert!(names(&o).contains(&"save".to_string()), "{func}");
        assert!(mutation_in_result("collection", func, &Some(o.result)), "{func}");
    }
    let o = run("deleteOne", "{\"filter\":{\"_id\":3}}", "[{\"_id\":1}]");
    assert!(o.effects.is_empty());
    assert!(!mutation_in_result("collection", "deleteOne", &Some(o.result)));
}
