//! What the operations on databases do to what is stored: what they name
//! changes, and all else stays.

use crate::collection::{bulk, reserved_collection};
use crate::database::{
    asked_names, collection_at, database_obstacle, database_reply, database_start, distinct_names, docs_in,
    exported, imported_database, import_collections, lemma_collection_at, lemma_docs_after_set,
    reserved_database, store_work, total_docs, visible, visible_collections, visible_databases, with_docs,
    DatabasePlanView, WorkView,
};
use crate::json::JsonView;
use crate::object::field;
use crate::request::nonempty_text;
use vstd::prelude::*;

verus! {

/// The stored databases by their names, each with its collections by their
/// names, and their documents.
pub type Store = Map<Seq<char>, Map<Seq<char>, Seq<JsonView>>>;

/// The collections of a database; one that is not there has none.
pub open spec fn collections_of(store: Store, db: Seq<char>) -> Map<Seq<char>, Seq<JsonView>> {
    if store.dom().contains(db) {
        store[db]
    } else {
        Map::empty()
    }
}

/// The collections of a loaded database by their names.
pub open spec fn by_name(db: Seq<(Seq<char>, Seq<JsonView>)>) -> Map<Seq<char>, Seq<JsonView>> {
    Map::new(
        |n: Seq<char>| exists|i: int| 0 <= i < db.len() && (#[trigger] db[i]).0 == n,
        |n: Seq<char>| docs_in(db, n),
    )
}

/// What one piece of work makes of what is stored.  An import stores what is
/// made of the loaded collections and those that come in.
pub open spec fn worked(
    store: Store,
    w: WorkView,
    plan: DatabasePlanView,
    loaded: Seq<(Seq<char>, Seq<JsonView>)>,
) -> Store {
    match w {
        WorkView::Ensure { db } => store.insert(db, collections_of(store, db)),
        WorkView::AddCollection { db, collection, .. } => {
            let c = collections_of(store, db);
            store.insert(
                db,
                if c.dom().contains(collection) {
                    c
                } else {
                    c.insert(collection, Seq::empty())
                },
            )
        },
        WorkView::DropDatabase { db, .. } => store.remove(db),
        WorkView::Copy { from, to } => store.insert(to, collections_of(store, from)),
        WorkView::DropCollection { db, collection } => if store.dom().contains(db) {
            store.insert(db, store[db].remove(collection))
        } else {
            store
        },
        WorkView::RenameCollection { db, from, to } => if store.dom().contains(db)
            && store[db].dom().contains(from) {
            store.insert(db, store[db].remove(from).insert(to, store[db][from]))
        } else {
            store
        },
        WorkView::Load { .. } => store,
        WorkView::Import { db, load } => match plan {
            DatabasePlanView::Import { mode, incoming, .. } => store.insert(
                db,
                by_name(
                    imported_database(
                        mode,
                        if load {
                            loaded
                        } else {
                            Seq::empty()
                        },
                        incoming,
                    ),
                ),
            ),
            _ => store,
        },
    }
}

/// What pieces of work make of what is stored, one after the other.
pub open spec fn worked_all(
    store: Store,
    work: Seq<WorkView>,
    plan: DatabasePlanView,
    loaded: Seq<(Seq<char>, Seq<JsonView>)>,
) -> Store
    decreases work.len(),
{
    if work.len() == 0 {
        store
    } else {
        worked(worked_all(store, work.drop_last(), plan, loaded), work.last(), plan, loaded)
    }
}

/// What is stored after an operation.
pub open spec fn after(
    store: Store,
    plan: DatabasePlanView,
    exists: bool,
    loaded: Seq<(Seq<char>, Seq<JsonView>)>,
) -> Store {
    worked_all(store, store_work(plan, exists), plan, loaded)
}

/// Whether only one database differs between two states of the store.
pub open spec fn only_differs_at(a: Store, b: Store, db: Seq<char>) -> bool {
    forall|n: Seq<char>|
        n != db ==> (#[trigger] a.dom().contains(n) <==> b.dom().contains(n)) && (a.dom().contains(n)
            ==> a[n] == b[n])
}

/// Whether a payload names a database and, if it is about one, a collection.
pub open spec fn names(payload: JsonView, db: Seq<char>, collection: Seq<char>) -> bool {
    db.len() > 0 && field(payload, "database_name"@) == Some(JsonView::String(db)) && (
    collection.len() > 0 ==> field(payload, "collectionName"@) == Some(
        JsonView::String(collection),
    )) && (collection.len() == 0 ==> field(payload, "collectionName"@) is None && field(
        payload,
        "collection_name"@,
    ) is None)
}

/// A name that nothing is reserved under.
pub open spec fn is_free_collection(name: Seq<char>) -> bool {
    name.len() > 0 && name != "__mdb_placeholder_empty__"@ && !(name.len() >= 7 && name.take(7)
        == "system."@)
}

pub open spec fn is_free_database(name: Seq<char>) -> bool {
    name.len() > 0 && name != "admin"@ && name != "config"@ && name != "local"@
}

proof fn lemma_free(c: Seq<char>, d: Seq<char>)
    ensures
        is_free_collection(c) ==> !reserved_collection(c),
        is_free_database(d) ==> !reserved_database(d),
        d == "admin"@ || d == "config"@ || d == "local"@ ==> reserved_database(d),
        c.len() >= 7 && c.take(7) == "system."@ ==> reserved_collection(c),
        c == "__mdb_placeholder_empty__"@ ==> reserved_collection(c),
{
    reveal_strlit("system.");
    assert(c.len() >= 7 ==> c.subrange(0, 7) == c.take(7));
}

proof fn lemma_words()
    ensures
        "createDatabase"@ != "deleteDatabase"@,
        "createDatabase"@ != "renameDatabase"@,
        "createDatabase"@ != "createCollection"@,
        "createDatabase"@ != "deleteCollection"@,
        "createDatabase"@ != "renameCollection"@,
        "createDatabase"@ != "exportDatabase"@,
        "createDatabase"@ != "importDatabase"@,
        "deleteDatabase"@ != "renameDatabase"@,
        "deleteDatabase"@ != "createCollection"@,
        "deleteDatabase"@ != "deleteCollection"@,
        "deleteDatabase"@ != "renameCollection"@,
        "deleteDatabase"@ != "exportDatabase"@,
        "deleteDatabase"@ != "importDatabase"@,
        "renameDatabase"@ != "createCollection"@,
        "renameDatabase"@ != "deleteCollection"@,
        "renameDatabase"@ != "renameCollection"@,
        "renameDatabase"@ != "exportDatabase"@,
        "renameDatabase"@ != "importDatabase"@,
        "createCollection"@ != "deleteCollection"@,
        "createCollection"@ != "renameCollection"@,
        "createCollection"@ != "exportDatabase"@,
        "createCollection"@ != "importDatabase"@,
        "deleteCollection"@ != "renameCollection"@,
        "deleteCollection"@ != "exportDatabase"@,
        "deleteCollection"@ != "importDatabase"@,
        "renameCollection"@ != "exportDatabase"@,
        "renameCollection"@ != "importDatabase"@,
        "exportDatabase"@ != "importDatabase"@,
{
    reveal_strlit("createDatabase");
    reveal_strlit("deleteDatabase");
    reveal_strlit("renameDatabase");
    reveal_strlit("createCollection");
    reveal_strlit("deleteCollection");
    reveal_strlit("renameCollection");
    reveal_strlit("exportDatabase");
    reveal_strlit("importDatabase");
    assert("createDatabase"@.len() == 14);
    assert("deleteDatabase"@.len() == 14);
    assert("renameDatabase"@.len() == 14);
    assert("createCollection"@.len() == 16);
    assert("deleteCollection"@.len() == 16);
    assert("renameCollection"@.len() == 16);
    assert("exportDatabase"@.len() == 14);
    assert("importDatabase"@.len() == 14);
    assert("createCollection"@[0] == 'c');
    assert("createDatabase"@[0] == 'c');
    assert("deleteCollection"@[0] == 'd');
    assert("deleteDatabase"@[0] == 'd');
    assert("exportDatabase"@[0] == 'e');
    assert("importDatabase"@[0] == 'i');
    assert("renameCollection"@[0] == 'r');
    assert("renameDatabase"@[0] == 'r');
}

proof fn lemma_one_work(
    store: Store,
    w: WorkView,
    plan: DatabasePlanView,
    loaded: Seq<(Seq<char>, Seq<JsonView>)>,
)
    ensures
        worked_all(store, seq![w], plan, loaded) == worked(store, w, plan, loaded),
{
    assert(seq![w].drop_last() == Seq::<WorkView>::empty());
    assert(worked_all(store, seq![w].drop_last(), plan, loaded) == store);
}

/// `createDatabase` makes the database that the payload names, with the
/// collection that it names, if any, and without documents; every other database
/// stays.  It is refused where the database is there.
pub proof fn lemma_create_database(
    payload: JsonView,
    message: Option<Seq<char>>,
    db: Seq<char>,
    collection: Seq<char>,
    store: Store,
    loaded: Seq<(Seq<char>, Seq<JsonView>)>,
)
    requires
        names(payload, db, collection),
        nonempty_text(payload, "new_database_name"@) is None,
        is_free_database(db),
        collection.len() > 0 ==> is_free_collection(collection),
        !store.dom().contains(db),
    ensures
        database_start("createDatabase"@, payload, message) matches Ok(plan) && {
            let s = after(store, plan, false, loaded);
            &&& asked_names(plan) == (Some(db), None::<Seq<char>>)
            &&& database_obstacle(plan, false, false) is None
            &&& database_obstacle(plan, true, false) == Some("Database already exists"@)
            &&& only_differs_at(store, s, db)
            &&& s.dom().contains(db)
            &&& forall|c: Seq<char>|
                #[trigger] s[db].dom().contains(c) <==> c == collection && collection.len() > 0
            &&& collection.len() > 0 ==> s[db][collection].len() == 0
        },
{
    lemma_words();
    lemma_free(collection, db);
    let plan = database_start("createDatabase"@, payload, message)->Ok_0;
    lemma_one_work(store, WorkView::Ensure { db }, plan, loaded);
    lemma_one_work(
        store,
        WorkView::AddCollection { db, collection, validator: None },
        plan,
        loaded,
    );
}

/// `createDatabase` makes the database of the new name where one is given.
pub proof fn lemma_new_name_is_made(
    payload: JsonView,
    message: Option<Seq<char>>,
    db: Seq<char>,
    store: Store,
    loaded: Seq<(Seq<char>, Seq<JsonView>)>,
)
    requires
        field(payload, "new_database_name"@) == Some(JsonView::String(db)),
        field(payload, "collectionName"@) is None,
        field(payload, "collection_name"@) is None,
        is_free_database(db),
        !store.dom().contains(db),
    ensures
        database_start("createDatabase"@, payload, message) matches Ok(plan) && asked_names(plan) == (
            Some(db),
            None::<Seq<char>>,
        ) && after(store, plan, false, loaded) == store.insert(db, Map::empty()),
{
    lemma_words();
    lemma_free(db, db);
    let plan = database_start("createDatabase"@, payload, message)->Ok_0;
    lemma_one_work(store, WorkView::Ensure { db }, plan, loaded);
}

/// `deleteDatabase` takes the named database away with all its collections, and
/// nothing else.  It is refused where the database is not there.
pub proof fn lemma_delete_database(
    payload: JsonView,
    message: Option<Seq<char>>,
    db: Seq<char>,
    collection: Seq<char>,
    store: Store,
    exists: bool,
    loaded: Seq<(Seq<char>, Seq<JsonView>)>,
)
    requires
        names(payload, db, collection),
        is_free_database(db),
    ensures
        database_start("deleteDatabase"@, payload, message) matches Ok(plan) && asked_names(plan) == (
            Some(db),
            None::<Seq<char>>,
        ) && database_obstacle(plan, true, false) is None && database_obstacle(plan, false, false)
            == Some("Database not found"@) && after(store, plan, exists, loaded) == store.remove(db),
{
    lemma_words();
    lemma_free(db, db);
    let plan = database_start("deleteDatabase"@, payload, message)->Ok_0;
    lemma_one_work(store, WorkView::DropDatabase { db, renamed: false }, plan, loaded);
}

/// `renameDatabase` leaves the collections of the old name under the new one and
/// nothing under the old one; every other database stays.  It is refused where
/// the old one is not there, or the new one is.
pub proof fn lemma_rename_database(
    payload: JsonView,
    message: Option<Seq<char>>,
    from: Seq<char>,
    to: Seq<char>,
    store: Store,
    exists: bool,
    loaded: Seq<(Seq<char>, Seq<JsonView>)>,
)
    requires
        from.len() > 0,
        field(payload, "database_name"@) == Some(JsonView::String(from)),
        field(payload, "new_database_name"@) == Some(JsonView::String(to)),
        is_free_database(from),
        is_free_database(to),
        from != to,
        store.dom().contains(from),
    ensures
        database_start("renameDatabase"@, payload, message) matches Ok(plan) && asked_names(plan) == (
            Some(from),
            Some(to),
        ) && database_obstacle(plan, true, false) is None && database_obstacle(plan, false, false)
            == Some("Database not found"@) && database_obstacle(plan, true, true) == Some(
            "Target database already exists"@,
        ) && after(store, plan, exists, loaded) == store.insert(to, store[from]).remove(from),
{
    lemma_words();
    lemma_free(from, from);
    lemma_free(to, to);
    let plan = database_start("renameDatabase"@, payload, message)->Ok_0;
    let a = WorkView::Copy { from, to };
    let b = WorkView::DropDatabase { db: from, renamed: true };
    let work = seq![a, b];
    assert(work.drop_last() == seq![a]);
    lemma_one_work(store, a, plan, loaded);
}

/// `createCollection` adds an empty collection to the named database where it is
/// not there, and leaves everything else as it was; a rule that is given goes
/// with it.
pub proof fn lemma_create_collection(
    payload: JsonView,
    message: Option<Seq<char>>,
    db: Seq<char>,
    collection: Seq<char>,
    store: Store,
    exists: bool,
    loaded: Seq<(Seq<char>, Seq<JsonView>)>,
)
    requires
        names(payload, db, collection),
        is_free_collection(collection),
        store.dom().contains(db),
        !store[db].dom().contains(collection),
    ensures
        database_start("createCollection"@, payload, message) matches Ok(plan) && after(
            store,
            plan,
            exists,
            loaded,
        ) == store.insert(db, store[db].insert(collection, Seq::empty())) && (store_work(
            plan,
            exists,
        )[0] matches WorkView::AddCollection { validator, .. } && validator == (if field(
            payload,
            "validator"@,
        ) == Some(JsonView::Null) {
            None
        } else {
            field(payload, "validator"@)
        })),
{
    lemma_words();
    lemma_free(collection, db);
    let plan = database_start("createCollection"@, payload, message)->Ok_0;
    lemma_one_work(
        store,
        WorkView::AddCollection {
            db,
            collection,
            validator: crate::database::validator_in(payload),
        },
        plan,
        loaded,
    );
}

/// `deleteCollection` takes the named collection of the named database away;
/// every other collection of it and every other database stays.
pub proof fn lemma_delete_collection(
    payload: JsonView,
    message: Option<Seq<char>>,
    db: Seq<char>,
    collection: Seq<char>,
    store: Store,
    exists: bool,
    loaded: Seq<(Seq<char>, Seq<JsonView>)>,
)
    requires
        names(payload, db, collection),
        is_free_collection(collection),
        store.dom().contains(db),
    ensures
        database_start("deleteCollection"@, payload, message) matches Ok(plan) && after(
            store,
            plan,
            exists,
            loaded,
        ) == store.insert(db, store[db].remove(collection)),
{
    lemma_words();
    lemma_free(collection, db);
    let plan = database_start("deleteCollection"@, payload, message)->Ok_0;
    lemma_one_work(store, WorkView::DropCollection { db, collection }, plan, loaded);
}

/// `renameCollection` gives the documents of one collection another name within
/// its database; everything else stays.
pub proof fn lemma_rename_collection(
    payload: JsonView,
    message: Option<Seq<char>>,
    db: Seq<char>,
    from: Seq<char>,
    to: Seq<char>,
    store: Store,
    exists: bool,
    loaded: Seq<(Seq<char>, Seq<JsonView>)>,
)
    requires
        db.len() > 0,
        field(payload, "database_name"@) == Some(JsonView::String(db)),
        is_free_collection(from),
        is_free_collection(to),
        field(payload, "collectionName"@) == Some(JsonView::String(from)) || (field(
            payload,
            "collectionName"@,
        ) is None && field(payload, "collection_name"@) is None && field(payload, "from"@) == Some(
            JsonView::String(from),
        )),
        field(payload, "new_collection_name"@) == Some(JsonView::String(to)) || (field(
            payload,
            "new_collection_name"@,
        ) is None && field(payload, "to"@) == Some(JsonView::String(to))),
        store.dom().contains(db),
        store[db].dom().contains(from),
    ensures
        database_start("renameCollection"@, payload, message) matches Ok(plan) && after(
            store,
            plan,
            exists,
            loaded,
        ) == store.insert(db, store[db].remove(from).insert(to, store[db][from])),
{
    lemma_words();
    lemma_free(from, db);
    lemma_free(to, db);
    let plan = database_start("renameCollection"@, payload, message)->Ok_0;
    lemma_one_work(store, WorkView::RenameCollection { db, from, to }, plan, loaded);
}

/// `exportDatabase` changes nothing, and answers each collection of the database
/// with its documents.
pub proof fn lemma_export_database(
    prefix: Seq<char>,
    payload: JsonView,
    message: Option<Seq<char>>,
    db: Seq<char>,
    collection: Seq<char>,
    store: Store,
    exists: bool,
    deleted: bool,
    loaded: Seq<(Seq<char>, Seq<JsonView>)>,
    name: Seq<char>,
)
    requires
        names(payload, db, collection),
        is_free_database(db),
        distinct_names(loaded),
        is_free_collection(name),
    ensures
        database_start("exportDatabase"@, payload, message) matches Ok(plan) && after(
            store,
            plan,
            exists,
            loaded,
        ) == store && store_work(plan, exists) == seq![WorkView::Load { db }] && database_reply(
            prefix,
            plan,
            exists,
            deleted,
            loaded,
        ).effects.len() == 0 && field(
            database_reply(prefix, plan, exists, deleted, loaded).result,
            name,
        ) == (if exists|i: int| 0 <= i < loaded.len() && (#[trigger] loaded[i]).0 == name {
            Some(JsonView::Array(docs_in(loaded, name)))
        } else {
            None
        }),
{
    lemma_words();
    lemma_free(name, db);
    let plan = database_start("exportDatabase"@, payload, message)->Ok_0;
    lemma_one_work(store, WorkView::Load { db }, plan, loaded);
    lemma_exported_field(loaded, name);
}

proof fn lemma_exported_field(db: Seq<(Seq<char>, Seq<JsonView>)>, name: Seq<char>)
    requires
        distinct_names(db),
        !reserved_collection(name),
    ensures
        field(JsonView::Object(exported(db)), name) == (if exists|i: int|
            0 <= i < db.len() && (#[trigger] db[i]).0 == name {
            Some(JsonView::Array(docs_in(db, name)))
        } else {
            None
        }),
    decreases db.len(),
{
    if db.len() > 0 {
        let d = db.drop_last();
        let last = db.last();
        assert forall|i: int, j: int| 0 <= i < j < d.len() implies (#[trigger] d[i]).0 != (
        #[trigger] d[j]).0 by {
            assert(db[i].0 != db[j].0);
        }
        lemma_exported_field(d, name);
        crate::object::lemma_lookup_with_key(
            exported(d),
            last.0,
            JsonView::Array(last.1),
            name,
        );
        lemma_collection_at(d, name);
        lemma_collection_at(db, name);
        if last.0 == name {
            assert(db[db.len() - 1].0 == name);
            assert(collection_at(db, name) == db.len() - 1) by {
                let k = collection_at(db, name) as int;
                assert(k < db.len());
                if k < db.len() - 1 {
                    assert(db[k].0 != db[db.len() - 1].0);
                }
            }
        } else {
            if exists|i: int| 0 <= i < db.len() && (#[trigger] db[i]).0 == name {
                let i = choose|i: int| 0 <= i < db.len() && (#[trigger] db[i]).0 == name;
                assert(d[i].0 == name);
                let k = collection_at(db, name) as int;
                let l = collection_at(d, name) as int;
                assert(k < d.len() && l < d.len());
                if k < l {
                    assert(d[k].0 != name);
                }
                if l < k {
                    assert(db[l].0 != name);
                }
            } else {
                if exists|i: int| 0 <= i < d.len() && (#[trigger] d[i]).0 == name {
                    let i = choose|i: int| 0 <= i < d.len() && (#[trigger] d[i]).0 == name;
                    assert(db[i].0 == name);
                }
            }
        }
    }
}

/// `importDatabase` leaves the collections that come in, and no others, in the
/// named database; or where it merges, puts their documents among those that are
/// there by their ids.  Every other database stays.
pub proof fn lemma_import_database(
    payload: JsonView,
    message: Option<Seq<char>>,
    db: Seq<char>,
    data: Seq<(Seq<char>, JsonView)>,
    incoming: Seq<(Seq<char>, Seq<JsonView>)>,
    store: Store,
    exists: bool,
    loaded: Seq<(Seq<char>, Seq<JsonView>)>,
    name: Seq<char>,
)
    requires
        db.len() > 0,
        field(payload, "database_name"@) == Some(JsonView::String(db)),
        field(payload, "data"@) == Some(JsonView::Object(data)),
        is_free_database(db),
        data.len() == incoming.len(),
        distinct_names(incoming),
        forall|i: int|
            0 <= i < data.len() ==> (#[trigger] data[i]) == (
                incoming[i].0,
                JsonView::Array(incoming[i].1),
            ) && is_free_collection(incoming[i].0) && forall|j: int|
                0 <= j < incoming[i].1.len() ==> (#[trigger] incoming[i].1[j]) is Object,
    ensures
        database_start("importDatabase"@, payload, message) matches Ok(plan) && {
            let s = after(store, plan, exists, loaded);
            let had = if exists {
                docs_in(loaded, name)
            } else {
                Seq::empty()
            };
            let comes = exists|i: int| 0 <= i < incoming.len() && (#[trigger] incoming[i]).0 == name;
            &&& asked_names(plan) == (Some(db), None::<Seq<char>>)
            &&& only_differs_at(store, s, db)
            &&& s.dom().contains(db)
            &&& field(payload, "mode"@) != Some(JsonView::String("merge"@)) ==> (
            s[db].dom().contains(name) <==> comes) && (comes ==> s[db][name] == docs_in(
                incoming,
                name,
            ))
            &&& field(payload, "mode"@) == Some(JsonView::String("merge"@)) ==> (comes ==> s[db].dom().contains(
                name,
            ) && s[db][name] == bulk(had, docs_in(incoming, name)).docs)
            &&& field(payload, "mode"@) == Some(JsonView::String("merge"@)) && exists && !comes ==> (
            s[db].dom().contains(name) <==> exists|i: int|
                0 <= i < loaded.len() && (#[trigger] loaded[i]).0 == name) && (s[db].dom().contains(
                name,
            ) ==> s[db][name] == docs_in(loaded, name))
        },
{
    lemma_words();
    lemma_free(db, db);
    lemma_incoming(data, incoming);
    reveal_strlit("merge");
    reveal_strlit("replace");
    assert("merge"@.len() == 5 && "replace"@.len() == 7);
    let plan = database_start("importDatabase"@, payload, message)->Ok_0;
    lemma_one_work(store, WorkView::Import { db, load: exists }, plan, loaded);
    let start = if exists {
        loaded
    } else {
        Seq::empty()
    };
    lemma_merged(start, incoming, name);
    lemma_collection_at(Seq::<(Seq<char>, Seq<JsonView>)>::empty(), name);
    let m = import_collections(start, incoming);
    lemma_there(m, name);
    lemma_there(start, name);
    lemma_there(incoming, name);
}

proof fn lemma_there(c: Seq<(Seq<char>, Seq<JsonView>)>, name: Seq<char>)
    ensures
        collection_at(c, name) < c.len() <==> exists|i: int|
            0 <= i < c.len() && (#[trigger] c[i]).0 == name,
{
    lemma_collection_at(c, name);
    if collection_at(c, name) < c.len() {
        assert(c[collection_at(c, name) as int].0 == name);
    }
}

proof fn lemma_incoming(
    data: Seq<(Seq<char>, JsonView)>,
    incoming: Seq<(Seq<char>, Seq<JsonView>)>,
)
    requires
        data.len() == incoming.len(),
        distinct_names(incoming),
        forall|i: int|
            0 <= i < data.len() ==> (#[trigger] data[i]) == (
                incoming[i].0,
                JsonView::Array(incoming[i].1),
            ) && is_free_collection(incoming[i].0) && forall|j: int|
                0 <= j < incoming[i].1.len() ==> (#[trigger] incoming[i].1[j]) is Object,
    ensures
        crate::database::incoming_collections(data) == Ok::<
            Seq<(Seq<char>, Seq<JsonView>)>,
            Seq<char>,
        >(incoming),
    decreases data.len(),
{
    if data.len() > 0 {
        let d = data.drop_last();
        let c = incoming.drop_last();
        let n = data.len() - 1;
        assert forall|i: int| 0 <= i < d.len() implies (#[trigger] d[i]) == (
            c[i].0,
            JsonView::Array(c[i].1),
        ) && is_free_collection(c[i].0) && forall|j: int|
            0 <= j < c[i].1.len() ==> (#[trigger] c[i].1[j]) is Object by {
            assert(d[i] == data[i] && c[i] == incoming[i]);
        }
        assert forall|i: int, j: int| 0 <= i < j < c.len() implies (#[trigger] c[i]).0 != (
        #[trigger] c[j]).0 by {
            assert(incoming[i].0 != incoming[j].0);
        }
        lemma_incoming(d, c);
        assert(data.last() == data[n]);
        lemma_free(incoming[n].0, incoming[n].0);
        assert(crate::collection::all_objects(incoming[n].1));
        lemma_collection_at(c, incoming[n].0);
        let k = collection_at(c, incoming[n].0) as int;
        if k < c.len() {
            assert(incoming[k].0 != incoming[n].0);
        }
        assert(with_docs(c, incoming[n].0, incoming[n].1) == incoming);
    } else {
        assert(incoming == Seq::<(Seq<char>, Seq<JsonView>)>::empty());
    }
}

proof fn lemma_merged(
    start: Seq<(Seq<char>, Seq<JsonView>)>,
    incoming: Seq<(Seq<char>, Seq<JsonView>)>,
    name: Seq<char>,
)
    requires
        distinct_names(incoming),
    ensures
        ({
            let m = import_collections(start, incoming);
            let comes = collection_at(incoming, name) < incoming.len();
            &&& docs_in(m, name) == (if comes {
                bulk(docs_in(start, name), docs_in(incoming, name)).docs
            } else {
                docs_in(start, name)
            })
            &&& collection_at(m, name) < m.len() <==> comes || collection_at(start, name) < start.len()
        }),
    decreases incoming.len(),
{
    lemma_collection_at(incoming, name);
    if incoming.len() > 0 {
        let c = incoming.drop_last();
        let last = incoming.last();
        assert forall|i: int, j: int| 0 <= i < j < c.len() implies (#[trigger] c[i]).0 != (
        #[trigger] c[j]).0 by {
            assert(incoming[i].0 != incoming[j].0);
        }
        lemma_merged(start, c, name);
        lemma_merged(start, c, last.0);
        let d = import_collections(start, c);
        let docs = bulk(docs_in(d, last.0), last.1).docs;
        lemma_docs_after_set(d, last.0, docs, name);
        lemma_collection_at(c, name);
        lemma_collection_at(c, last.0);
        lemma_collection_at(d, name);
        let n = incoming.len() - 1;
        let k = collection_at(c, last.0) as int;
        if k < c.len() {
            assert(incoming[k].0 != incoming[n].0);
        }
        let at = collection_at(incoming, name) as int;
        if name == last.0 {
            assert(incoming[n].0 == name);
            if at < n {
                assert(incoming[at].0 != incoming[n].0);
            }
        } else {
            let l = collection_at(c, name) as int;
            if l < c.len() {
                assert(incoming[l].0 == name);
                if at < l {
                    assert(c[at].0 != name);
                }
                if l < at {
                    assert(incoming[l].0 != name);
                }
            }
            if at < incoming.len() {
                assert(c[at].0 == name);
            }
        }
        let m = with_docs(d, last.0, docs);
        lemma_there(m, name);
        lemma_there(d, name);
        lemma_collection_at(d, last.0);
        if exists|i: int| 0 <= i < d.len() && (#[trigger] d[i]).0 == name {
            let i = choose|i: int| 0 <= i < d.len() && (#[trigger] d[i]).0 == name;
            assert(m[i].0 == name);
        }
        if name == last.0 {
            let i = collection_at(d, name) as int;
            assert(m[i].0 == name);
        }
        if exists|i: int| 0 <= i < m.len() && (#[trigger] m[i]).0 == name {
            let i = choose|i: int| 0 <= i < m.len() && (#[trigger] m[i]).0 == name;
            if name != last.0 {
                assert(d[i].0 == name);
            }
        }
    }
}

/// The reserved databases are refused by every operation that would touch them
/// as a whole, and the reserved collections by every one that names them.
pub proof fn lemma_reserved_names_are_refused(
    func: Seq<char>,
    payload: JsonView,
    message: Option<Seq<char>>,
    db: Seq<char>,
    collection: Seq<char>,
)
    requires
        names(payload, db, collection),
        nonempty_text(payload, "new_database_name"@) is None,
    ensures
        (db == "admin"@ || db == "config"@ || db == "local"@) && (func == "createDatabase"@ || func
            == "deleteDatabase"@ || func == "exportDatabase"@ || func == "importDatabase"@) ==> database_start(
            func,
            payload,
            message,
        ) is Err,
        collection.len() > 0 && !is_free_collection(collection) && (func == "createDatabase"@ || func
            == "createCollection"@ || func == "deleteCollection"@) ==> database_start(
            func,
            payload,
            message,
        ) is Err,
{
    lemma_words();
    lemma_free(collection, db);
}

/// The names that are told are those that are there, in their order, without the
/// reserved ones.
pub proof fn lemma_names_are_told(names: Seq<Seq<char>>)
    ensures
        visible_databases(names) == names.filter(|n: Seq<char>| !reserved_database(n)),
        visible_collections(names) == names.filter(|n: Seq<char>| !reserved_collection(n)),
{
    lemma_visible_filters(names, |n: Seq<char>| reserved_database(n), |n: Seq<char>| !reserved_database(n));
    lemma_visible_filters(
        names,
        |n: Seq<char>| reserved_collection(n),
        |n: Seq<char>| !reserved_collection(n),
    );
}

proof fn lemma_visible_filters(
    names: Seq<Seq<char>>,
    reserved: spec_fn(Seq<char>) -> bool,
    keep: spec_fn(Seq<char>) -> bool,
)
    requires
        forall|n: Seq<char>| #[trigger] keep(n) == !reserved(n),
    ensures
        visible(names, reserved) == names.filter(keep),
    decreases names.len(),
{
    reveal(Seq::filter);
    if names.len() > 0 {
        lemma_visible_filters(names.drop_last(), reserved, keep);
        assert(keep(names.last()) == !reserved(names.last()));
    }
}

/// The documents of a database are counted one collection after the other.
pub proof fn lemma_documents_are_counted(
    c: Seq<(Seq<char>, Seq<JsonView>)>,
    name: Seq<char>,
    docs: Seq<JsonView>,
)
    ensures
        total_docs(Seq::empty()) == 0,
        total_docs(c.push((name, docs))) == total_docs(c) + docs.len(),
{
    assert(c.push((name, docs)).drop_last() == c);
}

} // verus!
