use microservicedb::json::Json;
use microservicedb::path::get_nested_value;
use microservicedb::update::apply_update_operators;
use microservicedb::wire::{from_text, to_text};

fn j(s: &str) -> Json {
    from_text(s).expect("json")
}

fn updated(doc: &str, update: &str) -> (String, bool) {
    let mut d = j(doc);
    let modified = apply_update_operators(&mut d, &j(update));
    (to_text(&d), modified)
}

#[test]
fn set_writes_values() {
    assert_eq!(updated("{\"a\":1}", "{\"$set\":{\"a\":2,\"b.c\":3}}"), ("{\"a\":2,\"b\":{\"c\":3}}".to_string(), true));
}

#[test]
fn setting_the_same_value_counts_as_a_change() {
    assert_eq!(updated("{\"a\":1}", "{\"$set\":{\"a\":1}}"), ("{\"a\":1}".to_string(), true));
}

#[test]
fn unset_takes_values_out() {
    assert_eq!(updated("{\"a\":1,\"b\":2}", "{\"$unset\":{\"a\":\"\"}}"), ("{\"b\":2}".to_string(), true));
    assert_eq!(updated("{\"b\":2}", "{\"$unset\":{\"a\":\"\"}}"), ("{\"b\":2}".to_string(), true));
}

#[test]
fn inc_and_mul_compute() {
    let (d, m) = updated("{\"n\":5}", "{\"$inc\":{\"n\":2}}");
    assert!(m);
    assert_eq!(get_nested_value(&j(&d), "n").unwrap().as_float(), Some(7.0f64.to_bits()));
    let (d, _) = updated("{\"n\":0.1}", "{\"$inc\":{\"n\":0.2}}");
    assert_eq!(get_nested_value(&j(&d), "n").unwrap().as_float(), Some((0.1f64 + 0.2).to_bits()));
    let (d, _) = updated("{\"n\":3}", "{\"$mul\":{\"n\":1.5}}");
    assert_eq!(get_nested_value(&j(&d), "n").unwrap().as_float(), Some(4.5f64.to_bits()));
    let (d, _) = updated("{}", "{\"$inc\":{\"n\":4}}");
    assert_eq!(get_nested_value(&j(&d), "n").unwrap().as_float(), Some(4.0f64.to_bits()));
}

#[test]
fn push_pull_and_add_to_set_change_arrays() {
    assert_eq!(updated("{\"a\":[1]}", "{\"$push\":{\"a\":2}}"), ("{\"a\":[1,2]}".to_string(), true));
    assert_eq!(updated("{}", "{\"$push\":{\"a\":2}}"), ("{\"a\":[2]}".to_string(), true));
    assert_eq!(updated("{\"a\":[1,2,1]}", "{\"$pull\":{\"a\":1}}"), ("{\"a\":[2]}".to_string(), true));
    assert_eq!(updated("{\"a\":[1]}", "{\"$addToSet\":{\"a\":1}}"), ("{\"a\":[1]}".to_string(), false));
    assert_eq!(updated("{\"a\":[1]}", "{\"$addToSet\":{\"a\":2}}"), ("{\"a\":[1,2]}".to_string(), true));
    assert_eq!(
        updated("{\"a\":[1]}", "{\"$addToSet\":{\"a\":{\"$each\":[1,2,3]}}}"),
        ("{\"a\":[1,2,3]}".to_string(), true)
    );
}

#[test]
fn rename_moves_a_value() {
    assert_eq!(updated("{\"a\":1,\"b\":2}", "{\"$rename\":{\"a\":\"c\"}}"), ("{\"c\":1,\"b\":2}".to_string(), true));
}

#[test]
fn add_to_set_is_idempotent() {
    let once = updated("{\"a\":[1]}", "{\"$addToSet\":{\"a\":2}}").0;
    let twice = updated(&once, "{\"$addToSet\":{\"a\":2}}");
    assert_eq!(twice, (once, false));
}

#[test]
fn what_was_not_modified_is_unchanged() {
    for u in ["{\"$set\":{\"a\":1}}", "{\"$unset\":{\"zz\":1}}", "{\"$addToSet\":{\"l\":1}}", "{}", "{\"$nope\":{\"a\":2}}"] {
        let doc = "{\"a\":1,\"l\":[1]}";
        let (d, m) = updated(doc, u);
        if !m {
            assert_eq!(d, doc, "{u}");
        }
    }
}
