use microservicedb::filter::{is_operator_object, match_filter, match_value, search_matches};
use microservicedb::json::Json;
use microservicedb::project::apply_projection;
use microservicedb::select::{matching_docs, select_docs, Query};
use microservicedb::sort::sort_docs;
use microservicedb::wire::{from_text, to_text};

fn j(s: &str) -> Json {
    from_text(s).expect("json")
}

fn list(s: &str) -> Vec<Json> {
    match j(s) {
        Json::Array(a) => a,
        _ => panic!("a list"),
    }
}

fn matches_doc(doc: &str, filter: &str) -> bool {
    match_filter(&j(doc), &j(filter))
}

fn sorted(docs: &str, sort: &str) -> String {
    let mut d = list(docs);
    sort_docs(&mut d, &j(sort));
    to_text(&Json::Array(d))
}

fn shown(doc: &str, projection: &str) -> String {
    to_text(&apply_projection(&j(doc), &j(projection)))
}

fn query(filter: &str) -> Query {
    Query { filter: j(filter), sort: None, projection: None, limit: None, skip: 0 }
}

#[test]
fn fields_match_by_equality() {
    assert!(matches_doc("{\"a\":1}", "{\"a\":1}"));
    assert!(!matches_doc("{\"a\":1}", "{\"a\":2}"));
    assert!(!matches_doc("{}", "{\"a\":1}"));
    assert!(matches_doc("{\"a\":{\"b\":1}}", "{\"a.b\":1}"));
    assert!(matches_doc("{\"a\":1}", "{}"));
    assert!(matches_doc("{\"a\":1}", "null"));
}

#[test]
fn comparisons_match() {
    let d = "{\"n\":5,\"s\":\"m\"}";
    for (f, want) in [
        ("{\"n\":{\"$gt\":4}}", true),
        ("{\"n\":{\"$gt\":5}}", false),
        ("{\"n\":{\"$gte\":5}}", true),
        ("{\"n\":{\"$lt\":5}}", false),
        ("{\"n\":{\"$lte\":5}}", true),
        ("{\"n\":{\"$eq\":5}}", true),
        ("{\"n\":{\"$ne\":5}}", false),
        ("{\"n\":{\"$ne\":6}}", true),
        ("{\"s\":{\"$gt\":\"a\",\"$lt\":\"z\"}}", true),
        ("{\"n\":{\"$gt\":1,\"$lt\":3}}", false),
    ] {
        assert_eq!(matches_doc(d, f), want, "{f}");
    }
}

#[test]
fn lists_match() {
    let d = "{\"n\":5,\"tags\":[\"a\",\"b\"]}";
    for (f, want) in [
        ("{\"n\":{\"$in\":[1,5]}}", true),
        ("{\"n\":{\"$in\":[1]}}", false),
        ("{\"n\":{\"$nin\":[1]}}", true),
        ("{\"tags\":{\"$in\":[\"b\"]}}", true),
        ("{\"tags\":{\"$all\":[\"a\",\"b\"]}}", true),
        ("{\"tags\":{\"$all\":[\"a\",\"c\"]}}", false),
        ("{\"tags\":{\"$size\":2}}", true),
        ("{\"tags\":{\"$size\":3}}", false),
    ] {
        assert_eq!(matches_doc(d, f), want, "{f}");
    }
}

#[test]
fn presence_and_kind_match() {
    let d = "{\"n\":5,\"z\":null}";
    assert!(matches_doc(d, "{\"n\":{\"$exists\":true}}"));
    assert!(!matches_doc(d, "{\"x\":{\"$exists\":true}}"));
    assert!(matches_doc(d, "{\"x\":{\"$exists\":false}}"));
    assert!(!matches_doc(d, "{\"z\":{\"$exists\":true}}"));
}

#[test]
fn texts_match_patterns() {
    assert!(matches_doc("{\"s\":\"hello world\"}", "{\"s\":{\"$regex\":\"^hello\"}}"));
    assert!(matches_doc("{\"s\":\"hello world\"}", "{\"s\":{\"$regex\":\"w.r\"}}"));
    assert!(!matches_doc("{\"s\":\"hello\"}", "{\"s\":{\"$regex\":\"^world\"}}"));
    assert!(!matches_doc("{\"s\":\"hello\"}", "{\"s\":{\"$regex\":\"(\"}}"));
    assert!(search_matches(Some(true)));
    assert!(!search_matches(Some(false)));
    assert!(!search_matches(None));
}

#[test]
fn filters_combine() {
    let d = "{\"a\":1,\"b\":2}";
    assert!(matches_doc(d, "{\"$and\":[{\"a\":1},{\"b\":2}]}"));
    assert!(!matches_doc(d, "{\"$and\":[{\"a\":1},{\"b\":3}]}"));
    assert!(matches_doc(d, "{\"$or\":[{\"a\":9},{\"b\":2}]}"));
    assert!(!matches_doc(d, "{\"$or\":[]}"));
    assert!(matches_doc(d, "{\"$nor\":[{\"a\":9},{\"b\":9}]}"));
    assert!(!matches_doc(d, "{\"$nor\":[{\"a\":1}]}"));
    assert!(matches_doc(d, "{\"$not\":{\"a\":9}}"));
    assert!(!matches_doc(d, "{\"$not\":{\"a\":1}}"));
}

#[test]
fn not_and_nor_negate() {
    for d in ["{\"a\":1}", "{\"a\":2}", "{}"] {
        for f in ["{\"a\":1}", "{\"a\":{\"$gt\":1}}", "{}"] {
            let not = format!("{{\"$not\":{f}}}");
            let or = format!("{{\"$or\":[{f}]}}");
            let nor = format!("{{\"$nor\":[{f}]}}");
            assert_eq!(matches_doc(d, &not), !matches_doc(d, f));
            assert_eq!(matches_doc(d, &nor), !matches_doc(d, &or));
        }
    }
}

#[test]
fn operators_are_told_from_values() {
    assert!(is_operator_object(&j("{\"$gt\":1}")));
    assert!(!is_operator_object(&j("{\"$gt\":1,\"a\":2}")));
    assert!(!is_operator_object(&j("{}")));
    assert!(!is_operator_object(&j("5")));
    assert!(match_value(Some(&j("{\"a\":1}")), &j("{\"a\":1}")));
    assert!(!match_value(None, &j("1")));
}

#[test]
fn documents_are_sorted_stably() {
    assert_eq!(sorted("[{\"n\":3},{\"n\":1},{\"n\":2}]", "{\"n\":1}"), "[{\"n\":1},{\"n\":2},{\"n\":3}]");
    assert_eq!(sorted("[{\"n\":3},{\"n\":1},{\"n\":2}]", "{\"n\":-1}"), "[{\"n\":3},{\"n\":2},{\"n\":1}]");
    assert_eq!(
        sorted("[{\"n\":1,\"k\":\"x\"},{\"n\":0,\"k\":\"y\"},{\"n\":1,\"k\":\"z\"}]", "{\"n\":1}"),
        "[{\"n\":0,\"k\":\"y\"},{\"n\":1,\"k\":\"x\"},{\"n\":1,\"k\":\"z\"}]"
    );
    assert_eq!(
        sorted("[{\"a\":1,\"b\":1},{\"a\":1,\"b\":2},{\"a\":0,\"b\":3}]", "{\"a\":1,\"b\":-1}"),
        "[{\"a\":0,\"b\":3},{\"a\":1,\"b\":2},{\"a\":1,\"b\":1}]"
    );
    assert_eq!(sorted("[{\"n\":3},{\"n\":1}]", "{}"), "[{\"n\":3},{\"n\":1}]");
}

#[test]
fn sorting_many_documents_agrees_with_the_order() {
    let mut docs: Vec<Json> = Vec::new();
    let mut x: u64 = 7;
    for i in 0..200u64 {
        x = x.wrapping_mul(6364136223846793005).wrapping_add(1442695040888963407);
        docs.push(j(&format!("{{\"n\":{},\"i\":{}}}", (x >> 33) % 20, i)));
    }
    sort_docs(&mut docs, &j("{\"n\":1}"));
    for w in docs.windows(2) {
        let (a, b) = (w[0].get("n").unwrap().as_u64().unwrap(), w[1].get("n").unwrap().as_u64().unwrap());
        let (i, k) = (w[0].get("i").unwrap().as_u64().unwrap(), w[1].get("i").unwrap().as_u64().unwrap());
        assert!(a < b || (a == b && i < k));
    }
}

#[test]
fn projections_include_or_exclude() {
    let d = "{\"_id\":1,\"a\":2,\"b\":3}";
    assert_eq!(shown(d, "{\"a\":1}"), "{\"_id\":1,\"a\":2}");
    assert_eq!(shown(d, "{\"a\":1,\"_id\":0}"), d);
    assert_eq!(shown(d, "{\"a\":0}"), "{\"_id\":1,\"b\":3}");
    assert_eq!(shown(d, "{}"), d);
}

#[test]
fn queries_filter_sort_skip_and_limit() {
    let docs = list("[{\"n\":4},{\"n\":1},{\"n\":3},{\"n\":2}]");
    let mut q = query("{\"n\":{\"$gte\":2}}");
    q.sort = Some(j("{\"n\":1}"));
    q.skip = 1;
    q.limit = Some(1);
    assert_eq!(to_text(&Json::Array(select_docs(&docs, &q))), "[{\"n\":3}]");
    q.projection = Some(j("{\"x\":1}"));
    assert_eq!(to_text(&Json::Array(select_docs(&docs, &q))), "[{}]");
    let mut far = query("{}");
    far.skip = 9;
    assert_eq!(select_docs(&docs, &far).len(), 0);
    let mut none = query("{}");
    none.limit = Some(0);
    assert_eq!(select_docs(&docs, &none).len(), 0);
}

#[test]
fn a_query_gives_only_what_its_filter_selects() {
    let docs = list("[{\"n\":4},{\"n\":1},{\"n\":3},{\"n\":2}]");
    let filter = j("{\"n\":{\"$gt\":1}}");
    let found = matching_docs(&docs, &filter);
    assert_eq!(to_text(&Json::Array(found)), "[{\"n\":4},{\"n\":3},{\"n\":2}]");
    for d in select_docs(&docs, &query("{\"n\":{\"$gt\":1}}")) {
        assert!(match_filter(&d, &filter));
    }
}
