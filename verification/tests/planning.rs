use microservicedb::autoindex::{field_of_key, index_name, torn_key, AutoIndexManager, StatsCommand};
use microservicedb::json::Json;
use microservicedb::keys::{
    document_id, fraction, hash_text, id_index, tag_index, IndexCommand, IndexType, RedisDocumentCache,
    RedisIndexManager,
};
use microservicedb::request::{all_responses_pattern, RequestCacheState};
use microservicedb::plan::{IndexStrategy, QueryPlanAnalyzer};
use microservicedb::scan::{batches, cleared, first_cursor, next_cursor};
use microservicedb::select::{found_docs, ids_from_replies, IndexQuery};
use microservicedb::wire::{from_text, to_text};
use std::hash::{Hash, Hasher};

fn j(s: &str) -> Json {
    from_text(s).expect("json")
}

fn index() -> RedisIndexManager {
    RedisIndexManager { prefix: "idx".to_string() }
}

fn auto() -> AutoIndexManager {
    AutoIndexManager { threshold: 50, window_secs: 600, drop_idle_secs: 86400, prefix: "idx_stats".to_string() }
}

#[test]
fn an_id_is_looked_up_directly() {
    let p = QueryPlanAnalyzer::analyze(&j("{\"_id\":\"x\",\"a\":1}"));
    assert!(p.can_use_redis && !p.fallback_to_mongo);
    assert!(matches!(p.index_strategy, IndexStrategy::PrimaryKeyLookup { id } if id == "x"));
}

#[test]
fn equalities_and_ranges_use_indexes() {
    let p = QueryPlanAnalyzer::analyze(&j("{\"n\":{\"$gte\":5}}"));
    assert!(matches!(p.index_strategy, IndexStrategy::NumericRange { field, min, max }
        if field == "n" && min == 5.0f64.to_bits() && max == f64::INFINITY.to_bits()));
    let p = QueryPlanAnalyzer::analyze(&j("{\"s\":{\"$in\":[\"a\",\"b\"]}}"));
    assert!(p.can_use_redis);
    let p = QueryPlanAnalyzer::analyze(&j("{}"));
    assert!(!p.can_use_redis && p.fallback_to_mongo);
    assert!(matches!(p.index_strategy, IndexStrategy::NoIndex));
    let p = QueryPlanAnalyzer::analyze(&j("{\"$and\":[{\"a\":\"x\"},{\"b\":\"y\"}]}"));
    assert!(matches!(p.index_strategy, IndexStrategy::Composite(parts) if parts.len() == 2));
}

#[test]
fn fields_that_can_be_indexed_are_found() {
    let f = QueryPlanAnalyzer::extract_indexable_fields(&j("{\"a\":1,\"$and\":[{\"b\":2},{\"c\":3}],\"$or\":[{\"d\":1}]}"));
    assert_eq!(f, vec!["a", "b", "c", "d"]);
}

#[test]
fn names_in_the_cache_are_made_of_segments() {
    let c = RedisDocumentCache { ttl_seconds: 300, prefix: "doc".to_string() };
    assert_eq!(c.doc_key("db", "c", "1"), "doc:6462:63:31");
    assert_eq!(c.collection_pattern("db", "c"), "doc:6462:63:*");
    assert_eq!(c.database_pattern("db"), "doc:6462:*");
    assert!(c.doc_key("a:b", "c", "1") != c.doc_key("a", "b:c", "1"));
}

#[test]
fn a_document_is_read_back_from_its_fields() {
    for s in ["{\"_id\":1,\"a\":{\"b\":[1,null]},\"t\":\"x\"}", "{}", "{\"a\":1.5}"] {
        let d = j(s);
        let f = RedisDocumentCache::doc_fields(&d).expect("an object");
        if !f.is_empty() {
            let back = RedisDocumentCache::doc_from_fields(&f).expect("fields");
            assert_eq!(to_text(&back), s);
        }
    }
    assert!(RedisDocumentCache::doc_fields(&j("5")).is_none());
}

#[test]
fn hashes_are_those_of_the_standard_hasher() {
    for s in ["", "a", "hello", "ñ"] {
        let mut h = std::collections::hash_map::DefaultHasher::new();
        s.hash(&mut h);
        assert_eq!(hash_text(s), h.finish());
    }
    assert_eq!(fraction(0), 0.0f64.to_bits());
    for n in [1u64, 1 << 40, u64::MAX / 3, u64::MAX - 1] {
        let f = f64::from_bits(fraction(n));
        assert!(f >= 0.0 && f <= 1.0);
    }
}

#[test]
fn documents_enter_and_leave_their_indexes() {
    let m = index();
    let defs = vec![
        ("n".to_string(), IndexType::Numeric),
        ("t".to_string(), IndexType::Tag),
        ("s".to_string(), IndexType::String),
    ];
    let d = j("{\"_id\":\"k\",\"n\":5,\"t\":\"red\",\"s\":\"x\"}");
    let into = m.index_document("db", "c", &d, &defs).expect("an id");
    let out = m.unindex_document("db", "c", &d, &defs).expect("an id");
    assert_eq!(into.len(), 3);
    assert_eq!(out.len(), 3);
    assert!(matches!(&into[0], IndexCommand::ZAdd { key, member, score }
        if *key == m.idx_key_numeric("db", "c", "n") && member == "k" && *score == 5.0f64.to_bits()));
    assert!(matches!(&into[1], IndexCommand::SAdd { key, member }
        if *key == m.idx_key_tag("db", "c", "t", "red") && member == "k"));
    assert!(matches!(&out[1], IndexCommand::SRem { key, member }
        if *key == m.idx_key_tag("db", "c", "t", "red") && member == "k"));
    assert!(m.index_document("db", "c", &j("{\"n\":5}"), &defs).is_none());
    assert_eq!(document_id(&d).as_deref(), Some("k"));
    assert_eq!(document_id(&j("{}")), None);
}

#[test]
fn a_plan_becomes_looks_into_indexes() {
    let m = index();
    let p = QueryPlanAnalyzer::analyze(&j("{\"n\":{\"$gt\":1}}"));
    let q = m.queries("db", "c", &p.index_strategy);
    assert!(matches!(&q[0], IndexQuery::Range { key, .. } if *key == m.idx_key_numeric("db", "c", "n")));
    let p = QueryPlanAnalyzer::analyze(&j("{\"$and\":[{\"a\":\"x\"},{\"b\":\"y\"}]}"));
    let replies = vec![vec!["1".to_string(), "2".to_string()], vec!["2".to_string(), "3".to_string()]];
    assert_eq!(ids_from_replies(&p.index_strategy, &replies), vec!["2"]);
    assert_eq!(found_docs(&vec![None, Some(j("{\"a\":1}")), None]).len(), 1);
}

#[test]
fn a_field_is_read_back_from_the_name_of_its_statistics() {
    let a = auto();
    for f in ["a", "a.b", "ñ", "x:y", ""] {
        let key = a.stats_key("db", "c", f);
        assert!(!torn_key(&key));
        assert_eq!(field_of_key(&key).as_deref(), Some(f));
    }
    assert_eq!(a.stats_key("db", "c", "f"), "idx_stats:6462:63:66:queries");
    assert_eq!(a.last_used_key("db", "c", "f"), "idx_stats:6462:63:66:last_used");
    assert_eq!(a.index_exists_key("db", "c", "f"), "idx_stats:6462:63:66:exists");
    assert_eq!(a.stats_pattern("db", "c", "queries"), "idx_stats:6462:63:*:queries");
    assert_eq!(field_of_key("a:b:zz:q"), None);
    assert_eq!(field_of_key("a:b:c:zz:q"), None);
    assert_eq!(field_of_key("a:b:c:ff:q"), None);
    assert!(torn_key("a:b:c:616:q"));
    assert!(!torn_key("a:b:c:6162:q"));
}

#[test]
fn fields_get_and_lose_indexes_by_use() {
    let a = auto();
    let key = a.stats_key("db", "c", "f");
    assert_eq!(a.field_to_index(&key, 50).as_deref(), Some("f"));
    assert_eq!(a.field_to_index(&key, 49), None);
    let last = a.last_used_key("db", "c", "f");
    assert_eq!(a.field_to_drop(&last, "1000", 1000 + 86400), None);
    assert_eq!(a.field_to_drop(&last, "1000", 1001 + 86400).as_deref(), Some("f"));
    assert_eq!(a.field_to_drop(&last, "5000", 1000), None);
    assert_eq!(a.field_to_drop(&last, "x", 99999999), None);
    assert!(a.is_popular(50) && !a.is_popular(49));
    assert!(a.is_forgotten("+1000", 87401) && !a.is_forgotten("", 87401));
    assert_eq!(a.field_to_index("a:b:c:616:q", 49), None);
    assert_eq!(a.field_to_drop("a:b:c:616:q", "1000", 1000), None);
    assert_eq!(index_name("f"), "f_1");
}

#[test]
fn a_query_on_a_field_is_counted_and_dated() {
    let a = auto();
    let c = a.record_query_field("db", "c", "f", 1_234_567);
    assert_eq!(c.len(), 4);
    assert!(matches!(&c[0], StatsCommand::Incr { key } if *key == a.stats_key("db", "c", "f")));
    assert!(matches!(&c[1], StatsCommand::Expire { secs: 600, .. }));
    assert!(matches!(&c[2], StatsCommand::Put { value, .. } if value == "1234"));
    assert!(matches!(&c[3], StatsCommand::Expire { secs: 86400, .. }));
    let big = AutoIndexManager { window_secs: u64::MAX, ..auto() };
    assert!(matches!(&big.record_query_field("d", "c", "f", 0)[1], StatsCommand::Expire { secs: -1, .. }));
    assert!(matches!(a.note_index("db", "c", "f"), StatsCommand::Put { value, .. } if value == "1"));
    assert_eq!(a.forget_field("db", "c", "f").len(), 3);
}

#[test]
fn names_are_cleared_in_batches() {
    let names: Vec<String> = (0..1201).map(|i| format!("k{i}")).collect();
    let b = batches(&names);
    assert_eq!(b.iter().map(|x| x.len()).collect::<Vec<_>>(), vec![500, 500, 201]);
    assert_eq!(b.concat(), names);
    assert_eq!(batches(&Vec::new()).len(), 0);
    assert_eq!(cleared(&vec![500, -1, 0, 201]), 701);
    assert_eq!(cleared(&vec![i64::MAX, i64::MAX, i64::MAX]), u64::MAX);
    assert_eq!(first_cursor(), "0");
    assert_eq!(next_cursor("17".to_string()).as_deref(), Some("17"));
    assert_eq!(next_cursor("0".to_string()), None);
}

#[test]
fn each_kind_of_name_has_its_own_start() {
    let responses = RequestCacheState::new(60);
    assert_eq!(responses.entry_prefix, "microservicedb:request_cache:entry");
    assert_eq!(responses.ttl_seconds, 60);
    assert_eq!(all_responses_pattern(), "microservicedb:request_cache:*");
    let documents = RedisDocumentCache::new(60);
    assert_eq!(documents.doc_key("a", "b", "c"), "microservicedb:doc:61:62:63");
    assert_eq!(RedisIndexManager::new().idx_key_numeric("a", "b", "c"), "microservicedb:idx:61:62:63:numeric");
    let statistics = AutoIndexManager::new(1, 2, 3);
    assert_eq!(statistics.stats_key("a", "b", "c"), "microservicedb:idx_stats:61:62:63:queries");
    assert_eq!((statistics.threshold, statistics.window_secs, statistics.drop_idle_secs), (1, 2, 3));
    assert_eq!(id_index(), vec![("_id".to_string(), IndexType::Tag)]);
    assert_eq!(tag_index("f"), vec![("f".to_string(), IndexType::Tag)]);
}
