use microservicedb::database::{
    begin_database_action, check_database_action, count_docs, database_not_found, drop_failure,
    handle_database_action, has_name, import_database, is_reserved_database, list_collection_names,
    list_database_names, names_to_check, needs_bootstrap, plan_store_work, save_database, Database, DatabaseEffect,
    DatabasePlan, StoreCommand, StoreWork,
};
use microservicedb::json::Json;
use microservicedb::wire::{from_text, to_text};

fn j(s: &str) -> Json {
    from_text(s).expect("json")
}

fn names(a: &[&str]) -> Vec<String> {
    a.iter().map(|s| s.to_string()).collect()
}

fn begin(func: &str, payload: &str) -> Result<DatabasePlan, String> {
    begin_database_action(func, &j(payload), &None)
}

fn refused(func: &str, payload: &str) -> String {
    match begin(func, payload) {
        Err(e) => e,
        Ok(_) => panic!("an error"),
    }
}

fn small() -> Database {
    let mut d = Database::empty();
    d.set_docs("c", vec![j("{\"_id\":1}"), j("{\"_id\":2}")]);
    d.set_docs("e", Vec::new());
    d
}

#[test]
fn collections_are_kept_by_name() {
    let mut d = small();
    assert_eq!(d.docs("c").len(), 2);
    assert_eq!(d.docs("none").len(), 0);
    d.set_docs("c", vec![j("{}")]);
    assert_eq!(d.docs("c").len(), 1);
    assert_eq!(d.collections.len(), 2);
    assert_eq!(count_docs(&d), 1);
}

#[test]
fn reserved_names_are_hidden() {
    for n in ["admin", "local", "config"] {
        assert!(is_reserved_database(n), "{n}");
    }
    assert_eq!(list_database_names(&names(&["b", "admin", "a", "local"])), vec!["b", "a"]);
    assert_eq!(list_collection_names(&names(&["c", "system.views", "__mdb_placeholder_empty__"])), vec!["c"]);
    assert!(has_name(&names(&["a"]), "a") && !has_name(&names(&["a"]), "b"));
    assert!(needs_bootstrap(&Vec::new()));
    assert!(!needs_bootstrap(&names(&["c"])));
}

#[test]
fn a_database_is_stored_by_commands() {
    let c = save_database(&names(&["old", "c", "system.x"]), &small());
    let text: Vec<String> = c
        .iter()
        .map(|x| match x {
            StoreCommand::Drop { collection } => format!("drop {collection}"),
            StoreCommand::EnsureDatabase => "ensure".to_string(),
            StoreCommand::Create { collection } => format!("create {collection}"),
            StoreCommand::Clear { collection } => format!("clear {collection}"),
            StoreCommand::Insert { collection, docs } => format!("insert {collection} {}", docs.len()),
        })
        .collect();
    assert_eq!(text, vec!["drop old", "clear c", "insert c 2", "create e", "clear e"]);
    let empty = save_database(&names(&["c"]), &Database::empty());
    assert!(matches!(&empty[..], [StoreCommand::Drop { .. }, StoreCommand::EnsureDatabase]));
}

#[test]
fn operations_on_databases_are_planned() {
    assert!(matches!(begin("createDatabase", "{\"database_name\":\"d\"}"), Ok(DatabasePlan::Create { db, initial: None }) if db == "d"));
    assert!(matches!(
        begin("createDatabase", "{\"new_database_name\":\"d\",\"collection_name\":\"c\"}"),
        Ok(DatabasePlan::Create { db, initial: Some(c) }) if db == "d" && c == "c"
    ));
    assert!(matches!(
        begin("createDatabase", "{\"database_name\":\"x\",\"new_database_name\":\"ventas\"}"),
        Ok(DatabasePlan::Create { db, initial: None }) if db == "ventas"
    ));
    assert!(matches!(
        begin("createDatabase", "{\"database_name\":\"x\",\"new_database_name\":\"\"}"),
        Ok(DatabasePlan::Create { db, .. }) if db == "x"
    ));
    assert!(matches!(
        begin_database_action("createDatabase", &j("{\"new_database_name\":\"n\"}"), &Some("m".to_string())),
        Ok(DatabasePlan::Create { db, .. }) if db == "n"
    ));
    assert!(matches!(
        begin_database_action("createDatabase", &j("{}"), &Some("m".to_string())),
        Ok(DatabasePlan::Create { db, .. }) if db == "m"
    ));
    assert!(matches!(begin("deleteDatabase", "{\"database_name\":\"d\"}"), Ok(DatabasePlan::Delete { .. })));
    assert!(matches!(
        begin("renameDatabase", "{\"database_name\":\"d\",\"new_database_name\":\"e\"}"),
        Ok(DatabasePlan::Rename { from, to }) if from == "d" && to == "e"
    ));
    assert!(matches!(
        begin("renameCollection", "{\"database_name\":\"d\",\"from\":\"a\",\"to\":\"b\"}"),
        Ok(DatabasePlan::RenameCollection { from, to, .. }) if from == "a" && to == "b"
    ));
    assert!(matches!(begin("exportDatabase", "{\"database_name\":\"d\"}"), Ok(DatabasePlan::Export { .. })));
    assert!(matches!(
        begin_database_action("deleteDatabase", &j("{}"), &Some("m".to_string())),
        Ok(DatabasePlan::Delete { db }) if db == "m"
    ));
}

#[test]
fn operations_that_cannot_be_are_refused() {
    assert_eq!(refused("createDatabase", "{}"), "database_name is required");
    assert_eq!(refused("deleteDatabase", "{\"database_name\":\"admin\"}"), "Database 'admin' is reserved and cannot be managed");
    assert_eq!(refused("nope", "{\"database_name\":\"d\"}"), "Unknown database function: nope");
    assert_eq!(
        refused("importDatabase", "{\"database_name\":\"d\",\"data\":{\"c\":5}}"),
        "Collection 'c' must be a JSON array"
    );
    assert_eq!(
        refused("importDatabase", "{\"database_name\":\"d\",\"data\":{\"c\":[5]}}"),
        "Collection 'c' contains a non-object document"
    );
    assert_eq!(database_not_found("d"), "Database 'd' not found");
    let p = begin("deleteDatabase", "{\"database_name\":\"d\"}").unwrap();
    assert!(check_database_action(&p, true, false).is_none());
    assert!(check_database_action(&p, false, false).is_some());
}

#[test]
fn operations_on_databases_are_told_of() {
    let p = begin("deleteDatabase", "{\"database_name\":\"d\"}").unwrap();
    let r = handle_database_action("idx", &p, true, true, &Database::empty());
    assert_eq!(to_text(&r.result), "{\"acknowledged\":true,\"deleted\":true}");
    assert!(matches!(r.effects.last(), Some(DatabaseEffect::Emit { event, .. }) if event == "deleteDatabase"));
    assert!(matches!(&r.effects[0], DatabaseEffect::InvalidateDatabase { db } if db == "d"));
}

#[test]
fn an_exported_database_is_imported_again() {
    let p = begin("exportDatabase", "{\"database_name\":\"d\"}").unwrap();
    let r = handle_database_action("idx", &p, true, false, &small());
    assert_eq!(to_text(&r.result), "{\"c\":[{\"_id\":1},{\"_id\":2}],\"e\":[]}");
    assert!(r.effects.is_empty());
    let back = begin("importDatabase", &format!("{{\"database_name\":\"d\",\"mode\":\"replace\",\"data\":{}}}", to_text(&r.result)));
    match back {
        Ok(DatabasePlan::Import { mode, incoming, .. }) => {
            let mut other = Database::empty();
            other.set_docs("x", vec![j("{}")]);
            let d = import_database(&mode, other, incoming);
            assert_eq!(d.collections.len(), 2);
            assert_eq!(to_text(&Json::Array(d.docs("c"))), "[{\"_id\":1},{\"_id\":2}]");
        },
        _ => panic!("an import"),
    }
}

#[test]
fn a_merge_keeps_what_is_there() {
    let mut incoming = Database::empty();
    incoming.set_docs("c", vec![j("{\"_id\":2,\"n\":1}"), j("{\"_id\":3}")]);
    let d = import_database("merge", small(), incoming);
    assert_eq!(to_text(&Json::Array(d.docs("c"))), "[{\"_id\":1},{\"_id\":2,\"n\":1},{\"_id\":3}]");
    assert_eq!(d.collections.len(), 2);
}

#[test]
fn work_in_the_store_is_planned() {
    let p = begin("renameDatabase", "{\"database_name\":\"d\",\"new_database_name\":\"e\"}").unwrap();
    assert_eq!(names_to_check(&p), (Some("d"), Some("e")));
    assert_eq!(check_database_action(&p, true, true).as_deref(), Some("Target database already exists"));
    let w = plan_store_work(&p, true);
    assert!(matches!(&w[..], [StoreWork::Copy { from, to }, StoreWork::DropDatabase { db, renamed: true }]
        if from == "d" && to == "e" && db == "d"));
    let p = begin("createDatabase", "{\"new_database_name\":\"d\",\"collection_name\":\"c\"}").unwrap();
    assert!(matches!(&plan_store_work(&p, false)[..], [StoreWork::AddCollection { .. }]));
    assert_eq!(check_database_action(&p, true, false).as_deref(), Some("Database already exists"));
    let p = begin("createDatabase", "{\"database_name\":\"d\"}").unwrap();
    assert!(matches!(&plan_store_work(&p, false)[..], [StoreWork::Ensure { .. }]));
    let p = begin("importDatabase", "{\"database_name\":\"d\",\"data\":{}}").unwrap();
    assert!(matches!(&plan_store_work(&p, false)[..], [StoreWork::Import { load: false, .. }]));
    let p = begin("exportDatabase", "{\"database_name\":\"d\"}").unwrap();
    assert_eq!(names_to_check(&p), (None, None));
    assert!(matches!(&plan_store_work(&p, false)[..], [StoreWork::Load { .. }]));
    assert_eq!(drop_failure("d", false, "e"), "Could not delete 'd' from MongoDB: e");
    assert_eq!(drop_failure("d", true, "e"), "Could not delete 'd' after rename: e");
}

#[test]
fn a_new_collection_can_have_a_rule() {
    let rule = "{\"database_name\":\"d\",\"collection_name\":\"c\",\"validator\":{\"n\":{\"$gt\":0}}}";
    match &plan_store_work(&begin("createCollection", rule).unwrap(), false)[..] {
        [StoreWork::AddCollection { db, collection, validator: Some(v) }] => {
            assert_eq!((db.as_str(), collection.as_str()), ("d", "c"));
            assert_eq!(to_text(v), "{\"n\":{\"$gt\":0}}");
        },
        _ => panic!("a collection"),
    }
    let none = "{\"database_name\":\"d\",\"collectionName\":\"c\",\"validator\":null}";
    assert!(matches!(
        &plan_store_work(&begin("createCollection", none).unwrap(), false)[..],
        [StoreWork::AddCollection { validator: None, .. }]
    ));
}
