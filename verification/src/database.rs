//! Databases, and operations on them.

use crate::collection::{
    are_objects, all_objects, bulk, count_value, mode_in, put_all, reserved_collection,
    is_reserved_collection,
};
use crate::json::{entry_views, views, Json, JsonView};
use crate::keys::{link, linked};
use crate::object::{
    cloned_json, field, nat_value, own_view, set_entry, string_view, text_value, text_view, with_key,
};
use crate::request::{
    collection_name, database_name, no_entries, nonempty_text, opt_str, put, require_collection_name,
    require_db_name, wanted_collection, wanted_database,
};
use crate::text::{cache_key_segment, cat, cat3, owned, same_text, segment, texts};
use crate::update::copy_list;
use vstd::prelude::*;

verus! {

broadcast use crate::json::group_json_views;

/// A database: its collections by name, each with its documents.
#[derive(Debug)]
pub struct Database {
    pub collections: Vec<(String, Vec<Json>)>,
}

/// The view of a list of collections.
pub open spec fn collection_views(s: Seq<(String, Vec<Json>)>) -> Seq<
    (Seq<char>, Seq<JsonView>),
> {
    s.map_values(|c: (String, Vec<Json>)| (c.0@, views(c.1@)))
}

impl View for Database {
    type V = Seq<(Seq<char>, Seq<JsonView>)>;

    open spec fn view(&self) -> Seq<(Seq<char>, Seq<JsonView>)> {
        collection_views(self.collections@)
    }
}

/// Where a collection stands, or their number.
pub open spec fn collection_at(c: Seq<(Seq<char>, Seq<JsonView>)>, name: Seq<char>) -> nat
    decreases c.len(),
{
    if c.len() == 0 || c[0].0 == name {
        0
    } else {
        1 + collection_at(c.drop_first(), name)
    }
}

/// The documents of a collection; one that is not there has none.
pub open spec fn docs_in(c: Seq<(Seq<char>, Seq<JsonView>)>, name: Seq<char>) -> Seq<JsonView> {
    if collection_at(c, name) < c.len() {
        c[collection_at(c, name) as int].1
    } else {
        Seq::empty()
    }
}

/// The collections with the documents of one set; it is added where it is not
/// there.
pub open spec fn with_docs(
    c: Seq<(Seq<char>, Seq<JsonView>)>,
    name: Seq<char>,
    docs: Seq<JsonView>,
) -> Seq<(Seq<char>, Seq<JsonView>)> {
    if collection_at(c, name) < c.len() {
        c.update(collection_at(c, name) as int, (name, docs))
    } else {
        c.push((name, docs))
    }
}

pub proof fn lemma_collection_at(c: Seq<(Seq<char>, Seq<JsonView>)>, name: Seq<char>)
    ensures
        collection_at(c, name) <= c.len(),
        collection_at(c, name) < c.len() ==> c[collection_at(c, name) as int].0 == name,
        forall|j: int| 0 <= j < collection_at(c, name) ==> (#[trigger] c[j]).0 != name,
    decreases c.len(),
{
    if c.len() > 0 && c[0].0 != name {
        let d = c.drop_first();
        lemma_collection_at(d, name);
        assert forall|j: int| 0 <= j < collection_at(c, name) implies (#[trigger] c[j]).0
            != name by {
            if j > 0 {
                assert(d[j - 1] == c[j]);
            }
        }
    }
}

proof fn lemma_collection_at_is(c: Seq<(Seq<char>, Seq<JsonView>)>, name: Seq<char>, i: int)
    requires
        0 <= i <= c.len(),
        i < c.len() ==> c[i].0 == name,
        forall|j: int| 0 <= j < i ==> (#[trigger] c[j]).0 != name,
    ensures
        collection_at(c, name) == i,
{
    lemma_collection_at(c, name);
}

/// What was put into a collection is what it holds; the others are as they
/// were.
pub proof fn lemma_docs_after_set(
    c: Seq<(Seq<char>, Seq<JsonView>)>,
    name: Seq<char>,
    docs: Seq<JsonView>,
    other: Seq<char>,
)
    ensures
        docs_in(with_docs(c, name, docs), other) == if other == name {
            docs
        } else {
            docs_in(c, other)
        },
{
    let n = with_docs(c, name, docs);
    lemma_collection_at(c, name);
    lemma_collection_at(c, other);
    let i = collection_at(c, name) as int;
    let j = collection_at(c, other) as int;
    if other == name {
        lemma_collection_at_is(n, other, i);
    } else if j < c.len() {
        lemma_collection_at_is(n, other, j);
    } else {
        lemma_collection_at_is(n, other, n.len() as int);
    }
}

impl Database {
    /// A database without collections.
    pub fn empty() -> (r: Database)
        ensures
            r@ == Seq::<(Seq<char>, Seq<JsonView>)>::empty(),
    {
        let r = Database { collections: Vec::new() };
        assert(r@ == Seq::<(Seq<char>, Seq<JsonView>)>::empty());
        r
    }

    fn index_of(&self, name: &str) -> (r: usize)
        ensures
            r == collection_at(self@, name@),
            r <= self.collections@.len(),
    {
        let ghost c = self@;
        let mut i: usize = 0;
        while i < self.collections.len()
            invariant
                i <= self.collections@.len(),
                c == self@,
                forall|j: int| 0 <= j < i ==> (#[trigger] c[j]).0 != name@,
            decreases self.collections@.len() - i,
        {
            if same_text(self.collections[i].0.as_str(), name) {
                proof {
                    assert(c[i as int].0 == name@);
                    lemma_collection_at_is(c, name@, i as int);
                }
                return i;
            }
            assert(c[i as int].0 != name@);
            i = i + 1;
        }
        proof {
            lemma_collection_at_is(c, name@, c.len() as int);
        }
        i
    }

    /// A copy of the documents of a collection.
    pub fn docs(&self, name: &str) -> (r: Vec<Json>)
        ensures
            views(r@) == docs_in(self@, name@),
    {
        let i = self.index_of(name);
        if i < self.collections.len() {
            copy_list(&self.collections[i].1)
        } else {
            let r: Vec<Json> = Vec::new();
            assert(views(r@) == Seq::<JsonView>::empty());
            r
        }
    }

    /// Sets the documents of a collection.
    pub fn set_docs(&mut self, name: &str, docs: Vec<Json>)
        ensures
            final(self)@ == with_docs(old(self)@, name@, views(docs@)),
    {
        let ghost before = self@;
        let ghost x = (name@, views(docs@));
        let i = self.index_of(name);
        if i < self.collections.len() {
            self.collections.set(i, (owned(name), docs));
            assert(self@ == before.update(i as int, x));
        } else {
            self.collections.push((owned(name), docs));
            assert(self@ == before.push(x));
        }
    }
}

/// Whether the name of a database is reserved.
pub open spec fn reserved_database(name: Seq<char>) -> bool {
    name == "admin"@ || name == "config"@ || name == "local"@
}

/// Whether the name of a database is reserved.
pub fn is_reserved_database(name: &str) -> (r: bool)
    ensures
        r == reserved_database(name@),
{
    same_text(name, "admin") || same_text(name, "config") || same_text(name, "local")
}

/// The names of a list that are not reserved.
pub open spec fn visible(names: Seq<Seq<char>>, reserved: spec_fn(Seq<char>) -> bool) -> Seq<
    Seq<char>,
>
    decreases names.len(),
{
    if names.len() == 0 {
        names
    } else if reserved(names.last()) {
        visible(names.drop_last(), reserved)
    } else {
        visible(names.drop_last(), reserved).push(names.last())
    }
}

/// The databases that are shown.
pub open spec fn visible_databases(names: Seq<Seq<char>>) -> Seq<Seq<char>> {
    visible(names, |n: Seq<char>| reserved_database(n))
}

/// The collections that are shown.
pub open spec fn visible_collections(names: Seq<Seq<char>>) -> Seq<Seq<char>> {
    visible(names, |n: Seq<char>| reserved_collection(n))
}

/// The databases that are shown.
pub fn list_database_names(names: &Vec<String>) -> (r: Vec<String>)
    ensures
        texts(r@) == visible_databases(texts(names@)),
{
    let ghost all = texts(names@);
    let ghost p = |n: Seq<char>| reserved_database(n);
    let mut r: Vec<String> = Vec::new();
    let mut i: usize = 0;
    assert(texts(r@) == all.take(0));
    while i < names.len()
        invariant
            i <= names@.len(),
            all == texts(names@),
            p == (|n: Seq<char>| reserved_database(n)),
            texts(r@) == visible(all.take(i as int), p),
        decreases names@.len() - i,
    {
        assert(all.take(i + 1).drop_last() == all.take(i as int));
        assert(all.take(i + 1).last() == all[i as int]);
        if !is_reserved_database(names[i].as_str()) {
            let ghost before = texts(r@);
            r.push(names[i].clone());
            assert(texts(r@) == before.push(all[i as int]));
        }
        i = i + 1;
    }
    assert(all.take(i as int) == all);
    r
}

/// The collections that are shown.
pub fn list_collection_names(names: &Vec<String>) -> (r: Vec<String>)
    ensures
        texts(r@) == visible_collections(texts(names@)),
{
    let ghost all = texts(names@);
    let ghost p = |n: Seq<char>| reserved_collection(n);
    let mut r: Vec<String> = Vec::new();
    let mut i: usize = 0;
    assert(texts(r@) == all.take(0));
    while i < names.len()
        invariant
            i <= names@.len(),
            all == texts(names@),
            p == (|n: Seq<char>| reserved_collection(n)),
            texts(r@) == visible(all.take(i as int), p),
        decreases names@.len() - i,
    {
        assert(all.take(i + 1).drop_last() == all.take(i as int));
        assert(all.take(i + 1).last() == all[i as int]);
        if !is_reserved_collection(names[i].as_str()) {
            let ghost before = texts(r@);
            r.push(names[i].clone());
            assert(texts(r@) == before.push(all[i as int]));
        }
        i = i + 1;
    }
    assert(all.take(i as int) == all);
    r
}

/// Whether a name stands in a list.
pub fn has_name(names: &Vec<String>, name: &str) -> (r: bool)
    ensures
        r == texts(names@).contains(name@),
{
    let mut i: usize = 0;
    while i < names.len()
        invariant
            i <= names@.len(),
            forall|j: int| 0 <= j < i ==> (#[trigger] texts(names@)[j]) != name@,
        decreases names@.len() - i,
    {
        if same_text(names[i].as_str(), name) {
            assert(texts(names@)[i as int] == name@);
            return true;
        }
        i = i + 1;
    }
    false
}

/// Whether an empty database has to be given a collection to stay in being.
pub fn needs_bootstrap(collections: &Vec<String>) -> (r: bool)
    ensures
        r == (collections@.len() == 0),
{
    collections.len() == 0
}

/// A change to the stored collections of a database.
#[derive(Debug)]
pub enum StoreCommand {
    Drop { collection: String },
    EnsureDatabase,
    Create { collection: String },
    Clear { collection: String },
    Insert { collection: String, docs: Vec<Json> },
}

/// What a change to the stored collections is.
#[verifier::ext_equal]
pub enum StoreView {
    Drop { collection: Seq<char> },
    EnsureDatabase,
    Create { collection: Seq<char> },
    Clear { collection: Seq<char> },
    Insert { collection: Seq<char>, docs: Seq<JsonView> },
}

impl View for StoreCommand {
    type V = StoreView;

    open spec fn view(&self) -> StoreView {
        match self {
            StoreCommand::Drop { collection } => StoreView::Drop { collection: collection@ },
            StoreCommand::EnsureDatabase => StoreView::EnsureDatabase,
            StoreCommand::Create { collection } => StoreView::Create { collection: collection@ },
            StoreCommand::Clear { collection } => StoreView::Clear { collection: collection@ },
            StoreCommand::Insert { collection, docs } => StoreView::Insert {
                collection: collection@,
                docs: views(docs@),
            },
        }
    }
}

pub open spec fn store_views(s: Seq<StoreCommand>) -> Seq<StoreView> {
    s.map_values(|c: StoreCommand| c@)
}

/// The changes that drop the stored collections that a database does not have.
pub open spec fn drops(
    existing: Seq<Seq<char>>,
    db: Seq<(Seq<char>, Seq<JsonView>)>,
) -> Seq<StoreView>
    decreases existing.len(),
{
    if existing.len() == 0 {
        Seq::empty()
    } else {
        let head = drops(existing.drop_last(), db);
        if collection_at(db, existing.last()) < db.len() {
            head
        } else {
            head.push(StoreView::Drop { collection: existing.last() })
        }
    }
}

/// The changes that store one collection: it is made where it is not there,
/// emptied, and filled.
pub open spec fn collection_writes(
    existing: Seq<Seq<char>>,
    name: Seq<char>,
    docs: Seq<JsonView>,
) -> Seq<StoreView> {
    (if existing.contains(name) {
        Seq::empty()
    } else {
        seq![StoreView::Create { collection: name }]
    }) + seq![StoreView::Clear { collection: name }] + (if docs.len() == 0 {
        Seq::empty()
    } else {
        seq![StoreView::Insert { collection: name, docs }]
    })
}

/// The changes that store the collections of a database.
pub open spec fn writes(
    existing: Seq<Seq<char>>,
    db: Seq<(Seq<char>, Seq<JsonView>)>,
) -> Seq<StoreView>
    decreases db.len(),
{
    if db.len() == 0 {
        Seq::empty()
    } else {
        writes(existing, db.drop_last()) + collection_writes(existing, db.last().0, db.last().1)
    }
}

/// The changes that store a database where some collections are stored already.
pub open spec fn save_plan(
    names: Seq<Seq<char>>,
    db: Seq<(Seq<char>, Seq<JsonView>)>,
) -> Seq<StoreView> {
    let existing = visible_collections(names);
    drops(existing, db) + if db.len() == 0 {
        seq![StoreView::EnsureDatabase]
    } else {
        writes(existing, db)
    }
}

fn push_store(out: &mut Vec<StoreCommand>, c: StoreCommand)
    ensures
        store_views(final(out)@) == store_views(old(out)@).push(c@),
{
    let ghost before = store_views(out@);
    let ghost x = c@;
    out.push(c);
    assert(store_views(out@) == before.push(x));
}

fn push_writes(
    out: &mut Vec<StoreCommand>,
    existing: &Vec<String>,
    name: &str,
    docs: &Vec<Json>,
)
    ensures
        store_views(final(out)@) == store_views(old(out)@) + collection_writes(
            texts(existing@),
            name@,
            views(docs@),
        ),
{
    let ghost before = store_views(out@);
    if !has_name(existing, name) {
        push_store(out, StoreCommand::Create { collection: owned(name) });
    }
    push_store(out, StoreCommand::Clear { collection: owned(name) });
    if docs.len() > 0 {
        push_store(
            out,
            StoreCommand::Insert { collection: owned(name), docs: copy_list(docs) },
        );
    }
    assert(store_views(out@) == before + collection_writes(
        texts(existing@),
        name@,
        views(docs@),
    ));
}

/// The changes that store a database where the named collections are stored
/// already.
pub fn save_database(names: &Vec<String>, database: &Database) -> (r: Vec<StoreCommand>)
    ensures
        store_views(r@) == save_plan(texts(names@), database@),
{
    let existing = list_collection_names(names);
    let ghost e = texts(existing@);
    let ghost db = database@;
    let mut out: Vec<StoreCommand> = Vec::new();
    let mut i: usize = 0;
    assert(e.take(0) == Seq::<Seq<char>>::empty());
    assert(store_views(out@) == Seq::<StoreView>::empty());
    while i < existing.len()
        invariant
            i <= existing@.len(),
            e == texts(existing@),
            db == database@,
            store_views(out@) == drops(e.take(i as int), db),
        decreases existing@.len() - i,
    {
        assert(e.take(i + 1).drop_last() == e.take(i as int));
        assert(e.take(i + 1).last() == e[i as int]);
        let at = database.index_of(existing[i].as_str());
        if at == database.collections.len() {
            push_store(&mut out, StoreCommand::Drop { collection: existing[i].clone() });
        }
        i = i + 1;
    }
    assert(e.take(i as int) == e);
    let ghost dropped = drops(e, db);
    if database.collections.len() == 0 {
        push_store(&mut out, StoreCommand::EnsureDatabase);
        assert(store_views(out@) == dropped + seq![StoreView::EnsureDatabase]);
        return out;
    }
    let mut n: usize = 0;
    assert(db.take(0) == Seq::<(Seq<char>, Seq<JsonView>)>::empty());
    assert(dropped + Seq::<StoreView>::empty() == dropped);
    while n < database.collections.len()
        invariant
            n <= database.collections@.len(),
            e == texts(existing@),
            db == database@,
            store_views(out@) == dropped + writes(e, db.take(n as int)),
        decreases database.collections@.len() - n,
    {
        assert(db.take(n + 1).drop_last() == db.take(n as int));
        assert(db.take(n + 1).last() == db[n as int]);
        push_writes(
            &mut out,
            &existing,
            database.collections[n].0.as_str(),
            &database.collections[n].1,
        );
        assert(store_views(out@) == dropped + writes(e, db.take(n + 1)));
        n = n + 1;
    }
    assert(db.take(n as int) == db);
    out
}

/// An operation on a database that can start.
#[derive(Debug)]
pub enum DatabasePlan {
    Create { db: String, initial: Option<String> },
    Delete { db: String },
    Rename { from: String, to: String },
    CreateCollection { db: String, collection: String, validator: Option<Json> },
    DeleteCollection { db: String, collection: String },
    RenameCollection { db: String, from: String, to: String },
    Export { db: String },
    Import { db: String, mode: String, incoming: Database },
}

/// What an operation on a database is.
#[verifier::ext_equal]
pub enum DatabasePlanView {
    Create { db: Seq<char>, initial: Option<Seq<char>> },
    Delete { db: Seq<char> },
    Rename { from: Seq<char>, to: Seq<char> },
    CreateCollection { db: Seq<char>, collection: Seq<char>, validator: Option<JsonView> },
    DeleteCollection { db: Seq<char>, collection: Seq<char> },
    RenameCollection { db: Seq<char>, from: Seq<char>, to: Seq<char> },
    Export { db: Seq<char> },
    Import { db: Seq<char>, mode: Seq<char>, incoming: Seq<(Seq<char>, Seq<JsonView>)> },
}

impl View for DatabasePlan {
    type V = DatabasePlanView;

    open spec fn view(&self) -> DatabasePlanView {
        match self {
            DatabasePlan::Create { db, initial } => DatabasePlanView::Create {
                db: db@,
                initial: string_view(*initial),
            },
            DatabasePlan::Delete { db } => DatabasePlanView::Delete { db: db@ },
            DatabasePlan::Rename { from, to } => DatabasePlanView::Rename { from: from@, to: to@ },
            DatabasePlan::CreateCollection { db, collection, validator } => {
                DatabasePlanView::CreateCollection {
                    db: db@,
                    collection: collection@,
                    validator: own_view(*validator),
                }
            },
            DatabasePlan::DeleteCollection { db, collection } => {
                DatabasePlanView::DeleteCollection { db: db@, collection: collection@ }
            },
            DatabasePlan::RenameCollection { db, from, to } => {
                DatabasePlanView::RenameCollection { db: db@, from: from@, to: to@ }
            },
            DatabasePlan::Export { db } => DatabasePlanView::Export { db: db@ },
            DatabasePlan::Import { db, mode, incoming } => DatabasePlanView::Import {
                db: db@,
                mode: mode@,
                incoming: incoming@,
            },
        }
    }
}

/// The name of the database that is to be made: the new name, or where none is
/// given, that of the database that the request is about.
pub open spec fn new_database(payload: JsonView, message: Option<Seq<char>>) -> Option<Seq<char>> {
    match nonempty_text(payload, "new_database_name"@) {
        Some(s) => Some(s),
        None => wanted_database(payload, message),
    }
}

/// The rule that the documents of a new collection have to meet, if one is
/// given.
pub open spec fn validator_in(payload: JsonView) -> Option<JsonView> {
    match field(payload, "validator"@) {
        Some(JsonView::Null) => None,
        v => v,
    }
}

fn payload_validator(payload: &Json) -> (r: Option<Json>)
    ensures
        own_view(r) == validator_in(payload@),
{
    match payload.get("validator") {
        Some(v) => if v.is_null() {
            None
        } else {
            cloned_json(Some(v))
        },
        None => None,
    }
}

/// One of two texts under keys of a value, the first if there is one.
pub open spec fn either_text(v: JsonView, a: Option<Seq<char>>, key: Seq<char>) -> Option<
    Seq<char>,
> {
    match a {
        Some(s) => Some(s),
        None => nonempty_text(v, key),
    }
}

/// The error that a database is reserved.
pub open spec fn reserved_error(db: Seq<char>, what: Seq<char>) -> Seq<char> {
    "Database '"@ + db + ("' is reserved and cannot be "@ + what)
}

/// The error that a collection is reserved.
pub open spec fn reserved_collection_error(name: Seq<char>, what: Seq<char>) -> Seq<char> {
    "Collection '"@ + name + ("' is reserved and cannot be "@ + what)
}

/// Collections that are to be imported, or why they cannot be.
pub open spec fn incoming_collections(o: Seq<(Seq<char>, JsonView)>) -> Result<
    Seq<(Seq<char>, Seq<JsonView>)>,
    Seq<char>,
>
    decreases o.len(),
{
    if o.len() == 0 {
        Ok(Seq::empty())
    } else {
        match incoming_collections(o.drop_last()) {
            Ok(c) => incoming_step(c, o.last().0, o.last().1),
            Err(e) => Err(e),
        }
    }
}

/// Adds one collection to those that are to be imported.
pub open spec fn incoming_step(
    c: Seq<(Seq<char>, Seq<JsonView>)>,
    name: Seq<char>,
    v: JsonView,
) -> Result<Seq<(Seq<char>, Seq<JsonView>)>, Seq<char>> {
    if reserved_collection(name) {
        Err(reserved_collection_error(name, "imported"@))
    } else {
        match v {
            JsonView::Array(docs) => if all_objects(docs) {
                Ok(with_docs(c, name, docs))
            } else {
                Err("Collection '"@ + name + "' contains a non-object document"@)
            },
            _ => Err("Collection '"@ + name + "' must be a JSON array"@),
        }
    }
}

/// How an operation on a database starts, or why it cannot.
pub open spec fn database_start(
    func: Seq<char>,
    payload: JsonView,
    message: Option<Seq<char>>,
) -> Result<DatabasePlanView, Seq<char>> {
    let db = wanted_database(payload, message);
    let collection = wanted_collection(payload);
    if func == "createDatabase"@ {
        match new_database(payload, message) {
            Some(name) => if reserved_database(name) {
                Err(reserved_error(name, "managed"@))
            } else if collection matches Some(c) && reserved_collection(c) {
                Err(reserved_collection_error(collection->Some_0, "modified"@))
            } else {
                Ok(DatabasePlanView::Create { db: name, initial: collection })
            },
            None => Err("database_name is required"@),
        }
    } else if func == "deleteDatabase"@ || func == "renameDatabase"@ || func == "createCollection"@
        || func == "deleteCollection"@ || func == "renameCollection"@ || func == "exportDatabase"@
        || func == "importDatabase"@ {
        match db {
            Some(name) => database_start_named(func, payload, name),
            None => Err("database_name is required"@),
        }
    } else {
        Err("Unknown database function: "@ + func)
    }
}

/// How an operation on a named database starts, or why it cannot.
pub open spec fn database_start_named(
    func: Seq<char>,
    payload: JsonView,
    name: Seq<char>,
) -> Result<DatabasePlanView, Seq<char>> {
    let collection = wanted_collection(payload);
    if func == "deleteDatabase"@ {
        if reserved_database(name) {
            Err(reserved_error(name, "managed"@))
        } else {
            Ok(DatabasePlanView::Delete { db: name })
        }
    } else if func == "renameDatabase"@ {
        match nonempty_text(payload, "new_database_name"@) {
            Some(to) => if reserved_database(name) || reserved_database(to) {
                Err("Reserved databases cannot be renamed"@)
            } else {
                Ok(DatabasePlanView::Rename { from: name, to })
            },
            None => Err("new_database_name is required"@),
        }
    } else if func == "createCollection"@ || func == "deleteCollection"@ {
        match collection {
            Some(c) => if reserved_collection(c) {
                Err(reserved_collection_error(c, "modified"@))
            } else if func == "createCollection"@ {
                Ok(
                    DatabasePlanView::CreateCollection {
                        db: name,
                        collection: c,
                        validator: validator_in(payload),
                    },
                )
            } else {
                Ok(DatabasePlanView::DeleteCollection { db: name, collection: c })
            },
            None => Err("collectionName is required"@),
        }
    } else if func == "renameCollection"@ {
        match either_text(payload, collection, "from"@) {
            Some(from) => match either_text(
                payload,
                nonempty_text(payload, "new_collection_name"@),
                "to"@,
            ) {
                Some(to) => if reserved_collection(from) || reserved_collection(to) {
                    Err("Reserved collections cannot be renamed"@)
                } else {
                    Ok(DatabasePlanView::RenameCollection { db: name, from, to })
                },
                None => Err("new_collection_name is required"@),
            },
            None => Err("collectionName is required"@),
        }
    } else if func == "exportDatabase"@ {
        if reserved_database(name) {
            Err(reserved_error(name, "exported"@))
        } else {
            Ok(DatabasePlanView::Export { db: name })
        }
    } else {
        if reserved_database(name) {
            Err(reserved_error(name, "managed"@))
        } else {
            match field(payload, "data"@) {
                Some(JsonView::Object(o)) => match incoming_collections(o) {
                    Ok(incoming) => Ok(
                        DatabasePlanView::Import {
                            db: name,
                            mode: mode_in(payload, "replace"@),
                            incoming,
                        },
                    ),
                    Err(e) => Err(e),
                },
                Some(_) => Err("data must be an object mapping collection names to arrays"@),
                None => Err("data is required"@),
            }
        }
    }
}

fn incoming_from(o: &Vec<(String, Json)>) -> (r: Result<Database, String>)
    ensures
        match r {
            Ok(d) => incoming_collections(entry_views(o@)) == Ok::<
                Seq<(Seq<char>, Seq<JsonView>)>,
                Seq<char>,
            >(d@),
            Err(e) => incoming_collections(entry_views(o@)) == Err::<
                Seq<(Seq<char>, Seq<JsonView>)>,
                Seq<char>,
            >(e@),
        },
{
    let ghost all = entry_views(o@);
    let mut d = Database::empty();
    let mut i: usize = 0;
    assert(all.take(0) == Seq::<(Seq<char>, JsonView)>::empty());
    while i < o.len()
        invariant
            i <= o@.len(),
            all == entry_views(o@),
            incoming_collections(all.take(i as int)) == Ok::<
                Seq<(Seq<char>, Seq<JsonView>)>,
                Seq<char>,
            >(d@),
        decreases o@.len() - i,
    {
        assert(all.take(i + 1).drop_last() == all.take(i as int));
        assert(all.take(i + 1).last() == all[i as int]);
        let name = o[i].0.as_str();
        if is_reserved_collection(name) {
            proof {
                lemma_incoming_error(all, i + 1);
            }
            return Err(
                cat3(
                    "Collection '",
                    name,
                    cat("' is reserved and cannot be ", "imported").as_str(),
                ),
            );
        }
        match &o[i].1 {
            Json::Array(docs) => {
                if !are_objects(docs) {
                    proof {
                        lemma_incoming_error(all, i + 1);
                    }
                    return Err(cat3("Collection '", name, "' contains a non-object document"));
                }
                d.set_docs(name, copy_list(docs));
            },
            _ => {
                proof {
                    lemma_incoming_error(all, i + 1);
                }
                return Err(cat3("Collection '", name, "' must be a JSON array"));
            },
        }
        i = i + 1;
    }
    assert(all.take(i as int) == all);
    Ok(d)
}

proof fn lemma_incoming_error(o: Seq<(Seq<char>, JsonView)>, n: int)
    requires
        0 <= n <= o.len(),
        incoming_collections(o.take(n)) is Err,
    ensures
        incoming_collections(o) == incoming_collections(o.take(n)),
    decreases o.len() - n,
{
    if n < o.len() {
        assert(o.take(n + 1).drop_last() == o.take(n));
        lemma_incoming_error(o, n + 1);
    } else {
        assert(o.take(n) == o);
    }
}

fn reserved_message(db: &str, what: &str) -> (r: String)
    ensures
        r@ == reserved_error(db@, what@),
{
    cat3("Database '", db, cat("' is reserved and cannot be ", what).as_str())
}

fn reserved_collection_message(name: &str, what: &str) -> (r: String)
    ensures
        r@ == reserved_collection_error(name@, what@),
{
    cat3("Collection '", name, cat("' is reserved and cannot be ", what).as_str())
}

/// A start, or the text of an error.
pub open spec fn start_view(r: Result<DatabasePlan, String>) -> Result<
    DatabasePlanView,
    Seq<char>,
> {
    match r {
        Ok(p) => Ok(p@),
        Err(e) => Err(e@),
    }
}

fn begin_named(func: &str, payload: &Json, name: &str) -> (r: Result<DatabasePlan, String>)
    ensures
        start_view(r) == database_start_named(func@, payload@, name@),
{
    if same_text(func, "deleteDatabase") {
        if is_reserved_database(name) {
            Err(reserved_message(name, "managed"))
        } else {
            Ok(DatabasePlan::Delete { db: owned(name) })
        }
    } else if same_text(func, "renameDatabase") {
        match opt_str(payload, "new_database_name") {
            Some(to) => if is_reserved_database(name) || is_reserved_database(to) {
                Err(owned("Reserved databases cannot be renamed"))
            } else {
                Ok(DatabasePlan::Rename { from: owned(name), to: owned(to) })
            },
            None => Err(owned("new_database_name is required")),
        }
    } else if same_text(func, "createCollection") || same_text(func, "deleteCollection") {
        match require_collection_name(payload) {
            Ok(c) => if is_reserved_collection(c) {
                Err(reserved_collection_message(c, "modified"))
            } else if same_text(func, "createCollection") {
                Ok(
                    DatabasePlan::CreateCollection {
                        db: owned(name),
                        collection: owned(c),
                        validator: payload_validator(payload),
                    },
                )
            } else {
                Ok(DatabasePlan::DeleteCollection { db: owned(name), collection: owned(c) })
            },
            Err(e) => Err(e),
        }
    } else if same_text(func, "renameCollection") {
        let from = match collection_name(payload) {
            Some(s) => Some(s),
            None => opt_str(payload, "from"),
        };
        let to = match opt_str(payload, "new_collection_name") {
            Some(s) => Some(s),
            None => opt_str(payload, "to"),
        };
        match (from, to) {
            (Some(f), Some(t)) => if is_reserved_collection(f) || is_reserved_collection(t) {
                Err(owned("Reserved collections cannot be renamed"))
            } else {
                Ok(
                    DatabasePlan::RenameCollection { db: owned(name), from: owned(f), to: owned(t) },
                )
            },
            (Some(_), None) => Err(owned("new_collection_name is required")),
            (None, _) => Err(owned("collectionName is required")),
        }
    } else if same_text(func, "exportDatabase") {
        if is_reserved_database(name) {
            Err(reserved_message(name, "exported"))
        } else {
            Ok(DatabasePlan::Export { db: owned(name) })
        }
    } else {
        if is_reserved_database(name) {
            return Err(reserved_message(name, "managed"));
        }
        match payload.get("data") {
            Some(Json::Object(o)) => match incoming_from(o) {
                Ok(incoming) => {
                    let mode = match opt_str(payload, "mode") {
                        Some(m) => m,
                        None => "replace",
                    };
                    Ok(DatabasePlan::Import { db: owned(name), mode: owned(mode), incoming })
                },
                Err(e) => Err(e),
            },
            Some(_) => Err(
                owned("data must be an object mapping collection names to arrays"),
            ),
            None => Err(owned("data is required")),
        }
    }
}

/// Starts an operation on a database.
pub fn begin_database_action(func: &str, payload: &Json, message: &Option<String>) -> (r: Result<
    DatabasePlan,
    String,
>)
    ensures
        start_view(r) == database_start(func@, payload@, string_view(*message)),
{
    if same_text(func, "createDatabase") {
        let named = match opt_str(payload, "new_database_name") {
            Some(s) => Some(s),
            None => database_name(payload, message),
        };
        return match named {
            Some(name) => {
                if is_reserved_database(name) {
                    return Err(reserved_message(name, "managed"));
                }
                match collection_name(payload) {
                    Some(c) => if is_reserved_collection(c) {
                        Err(reserved_collection_message(c, "modified"))
                    } else {
                        Ok(DatabasePlan::Create { db: owned(name), initial: Some(owned(c)) })
                    },
                    None => Ok(DatabasePlan::Create { db: owned(name), initial: None }),
                }
            },
            None => Err(owned("database_name is required")),
        };
    }
    if same_text(func, "deleteDatabase") || same_text(func, "renameDatabase") || same_text(
        func,
        "createCollection",
    ) || same_text(func, "deleteCollection") || same_text(func, "renameCollection") || same_text(
        func,
        "exportDatabase",
    ) || same_text(func, "importDatabase") {
        return match require_db_name(payload, message) {
            Ok(name) => begin_named(func, payload, name),
            Err(e) => Err(e),
        };
    }
    Err(cat("Unknown database function: ", func))
}

/// Why an operation cannot go on, by which databases there are.
pub open spec fn database_obstacle(
    plan: DatabasePlanView,
    exists: bool,
    target_exists: bool,
) -> Option<Seq<char>> {
    match plan {
        DatabasePlanView::Create { .. } => if exists {
            Some("Database already exists"@)
        } else {
            None
        },
        DatabasePlanView::Delete { .. } => if !exists {
            Some("Database not found"@)
        } else {
            None
        },
        DatabasePlanView::Rename { .. } => if !exists {
            Some("Database not found"@)
        } else if target_exists {
            Some("Target database already exists"@)
        } else {
            None
        },
        _ => None,
    }
}

/// Why an operation cannot go on, by which databases there are.
pub fn check_database_action(plan: &DatabasePlan, exists: bool, target_exists: bool) -> (r: Option<
    String,
>)
    ensures
        string_view(r) == database_obstacle(plan@, exists, target_exists),
{
    match plan {
        DatabasePlan::Create { .. } => if exists {
            Some(owned("Database already exists"))
        } else {
            None
        },
        DatabasePlan::Delete { .. } => if !exists {
            Some(owned("Database not found"))
        } else {
            None
        },
        DatabasePlan::Rename { .. } => if !exists {
            Some(owned("Database not found"))
        } else if target_exists {
            Some(owned("Target database already exists"))
        } else {
            None
        },
        _ => None,
    }
}

/// The databases whose presence decides whether an operation can go on: its own,
/// and the one that it makes out of it.
pub open spec fn asked_names(plan: DatabasePlanView) -> (Option<Seq<char>>, Option<Seq<char>>) {
    match plan {
        DatabasePlanView::Create { db, .. } => (Some(db), None),
        DatabasePlanView::Delete { db } => (Some(db), None),
        DatabasePlanView::Rename { from, to } => (Some(from), Some(to)),
        DatabasePlanView::Import { db, .. } => (Some(db), None),
        _ => (None, None),
    }
}

/// The databases whose presence decides whether an operation can go on.
pub fn names_to_check(plan: &DatabasePlan) -> (r: (Option<&str>, Option<&str>))
    ensures
        (text_view(r.0), text_view(r.1)) == asked_names(plan@),
{
    match plan {
        DatabasePlan::Create { db, .. } => (Some(db.as_str()), None),
        DatabasePlan::Delete { db } => (Some(db.as_str()), None),
        DatabasePlan::Rename { from, to } => (Some(from.as_str()), Some(to.as_str())),
        DatabasePlan::Import { db, .. } => (Some(db.as_str()), None),
        _ => (None, None),
    }
}

/// One thing that an operation has to be done in the store.
#[derive(Debug)]
pub enum StoreWork {
    Ensure { db: String },
    AddCollection { db: String, collection: String, validator: Option<Json> },
    DropDatabase { db: String, renamed: bool },
    Copy { from: String, to: String },
    DropCollection { db: String, collection: String },
    RenameCollection { db: String, from: String, to: String },
    Load { db: String },
    Import { db: String, load: bool },
}

/// One thing that is to be done in the store.
#[verifier::ext_equal]
pub enum WorkView {
    Ensure { db: Seq<char> },
    AddCollection { db: Seq<char>, collection: Seq<char>, validator: Option<JsonView> },
    DropDatabase { db: Seq<char>, renamed: bool },
    Copy { from: Seq<char>, to: Seq<char> },
    DropCollection { db: Seq<char>, collection: Seq<char> },
    RenameCollection { db: Seq<char>, from: Seq<char>, to: Seq<char> },
    Load { db: Seq<char> },
    Import { db: Seq<char>, load: bool },
}

impl View for StoreWork {
    type V = WorkView;

    open spec fn view(&self) -> WorkView {
        match self {
            StoreWork::Ensure { db } => WorkView::Ensure { db: db@ },
            StoreWork::AddCollection { db, collection, validator } => WorkView::AddCollection {
                db: db@,
                collection: collection@,
                validator: own_view(*validator),
            },
            StoreWork::DropDatabase { db, renamed } => WorkView::DropDatabase {
                db: db@,
                renamed: *renamed,
            },
            StoreWork::Copy { from, to } => WorkView::Copy { from: from@, to: to@ },
            StoreWork::DropCollection { db, collection } => WorkView::DropCollection {
                db: db@,
                collection: collection@,
            },
            StoreWork::RenameCollection { db, from, to } => WorkView::RenameCollection {
                db: db@,
                from: from@,
                to: to@,
            },
            StoreWork::Load { db } => WorkView::Load { db: db@ },
            StoreWork::Import { db, load } => WorkView::Import { db: db@, load: *load },
        }
    }
}

pub open spec fn work_views(s: Seq<StoreWork>) -> Seq<WorkView> {
    s.map_values(|w: StoreWork| w@)
}

/// What an operation has to be done in the store, in order: a database comes
/// into being with its first collection or without one, one that is renamed is
/// copied before it is dropped, and an import starts from what is there.
pub open spec fn store_work(plan: DatabasePlanView, exists: bool) -> Seq<WorkView> {
    match plan {
        DatabasePlanView::Create { db, initial } => match initial {
            Some(collection) => seq![WorkView::AddCollection { db, collection, validator: None }],
            None => seq![WorkView::Ensure { db }],
        },
        DatabasePlanView::Delete { db } => seq![WorkView::DropDatabase { db, renamed: false }],
        DatabasePlanView::Rename { from, to } => seq![
            WorkView::Copy { from, to },
            WorkView::DropDatabase { db: from, renamed: true },
        ],
        DatabasePlanView::CreateCollection { db, collection, validator } => seq![
            WorkView::AddCollection { db, collection, validator },
        ],
        DatabasePlanView::DeleteCollection { db, collection } => seq![
            WorkView::DropCollection { db, collection },
        ],
        DatabasePlanView::RenameCollection { db, from, to } => seq![
            WorkView::RenameCollection { db, from, to },
        ],
        DatabasePlanView::Export { db } => seq![WorkView::Load { db }],
        DatabasePlanView::Import { db, .. } => seq![WorkView::Import { db, load: exists }],
    }
}

/// What an operation has to be done in the store.
pub fn plan_store_work(plan: &DatabasePlan, exists: bool) -> (r: Vec<StoreWork>)
    ensures
        work_views(r@) == store_work(plan@, exists),
{
    let mut r: Vec<StoreWork> = Vec::new();
    match plan {
        DatabasePlan::Create { db, initial } => match initial {
            Some(c) => r.push(
                StoreWork::AddCollection {
                    db: db.clone(),
                    collection: c.clone(),
                    validator: None,
                },
            ),
            None => r.push(StoreWork::Ensure { db: db.clone() }),
        },
        DatabasePlan::Delete { db } => {
            r.push(StoreWork::DropDatabase { db: db.clone(), renamed: false })
        },
        DatabasePlan::Rename { from, to } => {
            r.push(StoreWork::Copy { from: from.clone(), to: to.clone() });
            r.push(StoreWork::DropDatabase { db: from.clone(), renamed: true });
        },
        DatabasePlan::CreateCollection { db, collection, validator } => {
            r.push(
                StoreWork::AddCollection {
                    db: db.clone(),
                    collection: collection.clone(),
                    validator: cloned_json(validator.as_ref()),
                },
            );
        },
        DatabasePlan::DeleteCollection { db, collection } => {
            r.push(
                StoreWork::DropCollection { db: db.clone(), collection: collection.clone() },
            );
        },
        DatabasePlan::RenameCollection { db, from, to } => {
            r.push(
                StoreWork::RenameCollection { db: db.clone(), from: from.clone(), to: to.clone() },
            );
        },
        DatabasePlan::Export { db } => r.push(StoreWork::Load { db: db.clone() }),
        DatabasePlan::Import { db, .. } => {
            r.push(StoreWork::Import { db: db.clone(), load: exists });
        },
    }
    assert(work_views(r@) == store_work(plan@, exists));
    r
}

/// The error that a database could not be dropped.
pub fn drop_failure(db: &str, renamed: bool, error: &str) -> (r: String)
    ensures
        r@ == "Could not delete '"@ + db@ + ((if renamed {
            "' after rename: "@
        } else {
            "' from MongoDB: "@
        }) + error@),
{
    if renamed {
        cat3("Could not delete '", db, cat("' after rename: ", error).as_str())
    } else {
        cat3("Could not delete '", db, cat("' from MongoDB: ", error).as_str())
    }
}

/// The error that a database is not there.
pub fn database_not_found(name: &str) -> (r: String)
    ensures
        r@ == "Database '"@ + name@ + "' not found"@,
{
    cat3("Database '", name, "' not found")
}

/// The databases that an import leaves: those that come in take the place of
/// all, or are put in among them.
pub open spec fn import_collections(
    db: Seq<(Seq<char>, Seq<JsonView>)>,
    incoming: Seq<(Seq<char>, Seq<JsonView>)>,
) -> Seq<(Seq<char>, Seq<JsonView>)>
    decreases incoming.len(),
{
    if incoming.len() == 0 {
        db
    } else {
        let d = import_collections(db, incoming.drop_last());
        let (name, docs) = incoming.last();
        with_docs(d, name, bulk(docs_in(d, name), docs).docs)
    }
}

/// How many documents some collections hold.
pub open spec fn total_docs(c: Seq<(Seq<char>, Seq<JsonView>)>) -> nat
    decreases c.len(),
{
    if c.len() == 0 {
        0
    } else {
        total_docs(c.drop_last()) + c.last().1.len()
    }
}

/// The database that an import leaves.
pub open spec fn imported_database(
    mode: Seq<char>,
    db: Seq<(Seq<char>, Seq<JsonView>)>,
    incoming: Seq<(Seq<char>, Seq<JsonView>)>,
) -> Seq<(Seq<char>, Seq<JsonView>)> {
    if mode == "merge"@ {
        import_collections(db, incoming)
    } else {
        incoming
    }
}

/// Imports collections into a database.
pub fn import_database(mode: &str, database: Database, incoming: Database) -> (r: Database)
    ensures
        r@ == imported_database(mode@, database@, incoming@),
{
    if !same_text(mode, "merge") {
        return incoming;
    }
    let ghost start = database@;
    let ghost all = incoming@;
    let mut d = database;
    let mut i: usize = 0;
    assert(all.take(0) == Seq::<(Seq<char>, Seq<JsonView>)>::empty());
    while i < incoming.collections.len()
        invariant
            i <= incoming.collections@.len(),
            all == incoming@,
            d@ == import_collections(start, all.take(i as int)),
        decreases incoming.collections@.len() - i,
    {
        assert(all.take(i + 1).drop_last() == all.take(i as int));
        assert(all.take(i + 1).last() == all[i as int]);
        let name = incoming.collections[i].0.as_str();
        let b = put_all(d.docs(name), &incoming.collections[i].1);
        d.set_docs(name, b.docs);
        i = i + 1;
    }
    assert(all.take(i as int) == all);
    d
}

/// A count that stays at the largest number where it would pass it.
pub open spec fn capped(n: nat) -> nat {
    if n <= u64::MAX {
        n
    } else {
        u64::MAX as nat
    }
}

/// How many documents a database holds.
pub fn count_docs(database: &Database) -> (r: u64)
    ensures
        r == capped(total_docs(database@)),
{
    let ghost all = database@;
    let mut n: u64 = 0;
    let mut i: usize = 0;
    assert(all.take(0) == Seq::<(Seq<char>, Seq<JsonView>)>::empty());
    while i < database.collections.len()
        invariant
            i <= database.collections@.len(),
            all == database@,
            n == total_docs(all.take(i as int)),
        decreases database.collections@.len() - i,
    {
        assert(all.take(i + 1).drop_last() == all.take(i as int));
        assert(all.take(i + 1).last() == all[i as int]);
        let k = database.collections[i].1.len() as u64;
        if n > u64::MAX - k {
            proof {
                lemma_total_grows(all, i + 1);
            }
            return u64::MAX;
        }
        n = n + k;
        i = i + 1;
    }
    assert(all.take(i as int) == all);
    n
}

proof fn lemma_total_grows(c: Seq<(Seq<char>, Seq<JsonView>)>, n: int)
    requires
        0 <= n <= c.len(),
    ensures
        total_docs(c.take(n)) <= total_docs(c),
    decreases c.len() - n,
{
    if n < c.len() {
        assert(c.take(n + 1).drop_last() == c.take(n));
        lemma_total_grows(c, n + 1);
    } else {
        assert(c.take(n) == c);
    }
}

/// What an operation on a database asks to be done, in order.
#[derive(Debug)]
pub enum DatabaseEffect {
    InvalidateDatabase { db: String },
    ClearIndexes { pattern: String },
    InvalidateCollection { db: String, collection: String },
    DropIndexes { db: String, collection: String },
    Emit { event: String, payload: Json },
}

/// What is asked to be done.
#[verifier::ext_equal]
pub enum DatabaseEffectView {
    InvalidateDatabase { db: Seq<char> },
    ClearIndexes { pattern: Seq<char> },
    InvalidateCollection { db: Seq<char>, collection: Seq<char> },
    DropIndexes { db: Seq<char>, collection: Seq<char> },
    Emit { event: Seq<char>, payload: JsonView },
}

impl View for DatabaseEffect {
    type V = DatabaseEffectView;

    open spec fn view(&self) -> DatabaseEffectView {
        match self {
            DatabaseEffect::InvalidateDatabase { db } => DatabaseEffectView::InvalidateDatabase {
                db: db@,
            },
            DatabaseEffect::ClearIndexes { pattern } => DatabaseEffectView::ClearIndexes {
                pattern: pattern@,
            },
            DatabaseEffect::InvalidateCollection { db, collection } => {
                DatabaseEffectView::InvalidateCollection { db: db@, collection: collection@ }
            },
            DatabaseEffect::DropIndexes { db, collection } => DatabaseEffectView::DropIndexes {
                db: db@,
                collection: collection@,
            },
            DatabaseEffect::Emit { event, payload } => DatabaseEffectView::Emit {
                event: event@,
                payload: payload@,
            },
        }
    }
}

pub open spec fn database_effect_views(s: Seq<DatabaseEffect>) -> Seq<DatabaseEffectView> {
    s.map_values(|e: DatabaseEffect| e@)
}

/// What an operation on a database comes to.
#[derive(Debug)]
pub struct DatabaseReply {
    pub effects: Vec<DatabaseEffect>,
    pub result: Json,
}

/// What a reply is.
#[verifier::ext_equal]
pub struct DatabaseReplyView {
    pub effects: Seq<DatabaseEffectView>,
    pub result: JsonView,
}

impl View for DatabaseReply {
    type V = DatabaseReplyView;

    open spec fn view(&self) -> DatabaseReplyView {
        DatabaseReplyView {
            effects: database_effect_views(self.effects@),
            result: self.result@,
        }
    }
}

/// The pattern of the index names that are cleared when a database is deleted.
pub open spec fn deleted_index_pattern(prefix: Seq<char>, db: Seq<char>) -> Seq<char> {
    link(link(link(prefix, "*"@), segment(db)), "*"@)
}

/// The payload of the event that tells of a change to a database.
pub open spec fn database_event(
    db: Seq<char>,
    collection: Option<Seq<char>>,
    before: JsonView,
    after: JsonView,
    summary: Seq<(Seq<char>, JsonView)>,
) -> JsonView {
    JsonView::Object(
        seq![("database_name"@, JsonView::String(db))] + (match collection {
            Some(c) => seq![("collectionName"@, JsonView::String(c))],
            None => Seq::empty(),
        }) + seq![
            ("before"@, before),
            ("after"@, after),
            ("summary"@, JsonView::Object(summary)),
        ],
    )
}

/// The result that an operation was done, with more to say.
pub open spec fn acknowledged(more: Seq<(Seq<char>, JsonView)>) -> JsonView {
    JsonView::Object(seq![("acknowledged"@, JsonView::Bool(true))] + more)
}

/// The entries that tell of an import.
pub open spec fn import_summary(
    mode: Seq<char>,
    created: bool,
    incoming: Seq<(Seq<char>, Seq<JsonView>)>,
) -> Seq<(Seq<char>, JsonView)> {
    seq![
        ("mode"@, JsonView::String(mode)),
        ("created"@, JsonView::Bool(created)),
        ("importedCollections"@, count_value(incoming.len())),
        ("importedDocuments"@, count_value(capped(total_docs(incoming)))),
    ]
}

/// The entries that tell of a new name.
pub open spec fn rename_entries(from: Seq<char>, to: Seq<char>) -> Seq<(Seq<char>, JsonView)> {
    seq![("from"@, JsonView::String(from)), ("to"@, JsonView::String(to))]
}

/// The collections of a database as a JSON object, without those that are
/// reserved.
pub open spec fn exported(db: Seq<(Seq<char>, Seq<JsonView>)>) -> Seq<(Seq<char>, JsonView)>
    decreases db.len(),
{
    if db.len() == 0 {
        Seq::empty()
    } else {
        let head = exported(db.drop_last());
        if reserved_collection(db.last().0) {
            head
        } else {
            with_key(head, db.last().0, JsonView::Array(db.last().1))
        }
    }
}

/// What an operation on a database comes to.  `existed` says whether the
/// database was there before an import, `deleted` whether a deleted collection
/// was there, and `database` is what was loaded for an export.
pub open spec fn database_reply(
    prefix: Seq<char>,
    plan: DatabasePlanView,
    existed: bool,
    deleted: bool,
    database: Seq<(Seq<char>, Seq<JsonView>)>,
) -> DatabaseReplyView {
    let null = JsonView::Null;
    match plan {
        DatabasePlanView::Create { db, .. } => DatabaseReplyView {
            effects: seq![
                DatabaseEffectView::Emit {
                    event: "createDatabase"@,
                    payload: database_event(
                        db,
                        None,
                        null,
                        null,
                        seq![("database_name"@, JsonView::String(db))],
                    ),
                },
            ],
            result: acknowledged(seq![("database_name"@, JsonView::String(db))]),
        },
        DatabasePlanView::Delete { db } => DatabaseReplyView {
            effects: seq![
                DatabaseEffectView::InvalidateDatabase { db },
                DatabaseEffectView::ClearIndexes { pattern: deleted_index_pattern(prefix, db) },
                DatabaseEffectView::Emit {
                    event: "deleteDatabase"@,
                    payload: database_event(
                        db,
                        None,
                        null,
                        null,
                        seq![("database_name"@, JsonView::String(db))],
                    ),
                },
            ],
            result: acknowledged(seq![("deleted"@, JsonView::Bool(true))]),
        },
        DatabasePlanView::Rename { from, to } => DatabaseReplyView {
            effects: seq![
                DatabaseEffectView::InvalidateDatabase { db: from },
                DatabaseEffectView::Emit {
                    event: "renameDatabase"@,
                    payload: database_event(
                        to,
                        None,
                        JsonView::String(from),
                        JsonView::String(to),
                        rename_entries(from, to),
                    ),
                },
            ],
            result: acknowledged(rename_entries(from, to)),
        },
        DatabasePlanView::CreateCollection { db, collection, .. } => DatabaseReplyView {
            effects: seq![
                DatabaseEffectView::Emit {
                    event: "createCollection"@,
                    payload: database_event(
                        db,
                        Some(collection),
                        null,
                        null,
                        seq![("collectionName"@, JsonView::String(collection))],
                    ),
                },
            ],
            result: acknowledged(
                seq![
                    ("database_name"@, JsonView::String(db)),
                    ("collectionName"@, JsonView::String(collection)),
                ],
            ),
        },
        DatabasePlanView::DeleteCollection { db, collection } => DatabaseReplyView {
            effects: seq![
                DatabaseEffectView::InvalidateCollection { db, collection },
                DatabaseEffectView::DropIndexes { db, collection },
                DatabaseEffectView::Emit {
                    event: "deleteCollection"@,
                    payload: database_event(
                        db,
                        Some(collection),
                        null,
                        null,
                        seq![
                            ("collectionName"@, JsonView::String(collection)),
                            ("deleted"@, JsonView::Bool(deleted)),
                        ],
                    ),
                },
            ],
            result: acknowledged(seq![("deleted"@, JsonView::Bool(deleted))]),
        },
        DatabasePlanView::RenameCollection { db, from, to } => DatabaseReplyView {
            effects: seq![
                DatabaseEffectView::InvalidateCollection { db, collection: from },
                DatabaseEffectView::Emit {
                    event: "renameCollection"@,
                    payload: database_event(
                        db,
                        Some(to),
                        JsonView::String(from),
                        JsonView::String(to),
                        rename_entries(from, to),
                    ),
                },
            ],
            result: acknowledged(rename_entries(from, to)),
        },
        DatabasePlanView::Export { .. } => DatabaseReplyView {
            effects: Seq::empty(),
            result: JsonView::Object(exported(database)),
        },
        DatabasePlanView::Import { db, mode, incoming } => DatabaseReplyView {
            effects: seq![
                DatabaseEffectView::InvalidateDatabase { db },
                DatabaseEffectView::Emit {
                    event: "importDatabase"@,
                    payload: database_event(
                        db,
                        None,
                        null,
                        null,
                        import_summary(mode, !existed, incoming),
                    ),
                },
            ],
            result: acknowledged(
                seq![("database_name"@, JsonView::String(db))] + import_summary(
                    mode,
                    !existed,
                    incoming,
                ),
            ),
        },
    }
}

fn push_database_effect(effects: &mut Vec<DatabaseEffect>, e: DatabaseEffect)
    ensures
        database_effect_views(final(effects)@) == database_effect_views(old(effects)@).push(e@),
{
    let ghost before = database_effect_views(effects@);
    let ghost x = e@;
    effects.push(e);
    assert(database_effect_views(effects@) == before.push(x));
}

fn no_database_effects() -> (r: Vec<DatabaseEffect>)
    ensures
        database_effect_views(r@) == Seq::<DatabaseEffectView>::empty(),
{
    let r: Vec<DatabaseEffect> = Vec::new();
    assert(database_effect_views(r@) == Seq::<DatabaseEffectView>::empty());
    r
}

fn event_payload(
    db: &str,
    collection: Option<&str>,
    before: Json,
    after: Json,
    summary: Vec<(String, Json)>,
) -> (r: Json)
    ensures
        r@ == database_event(
            db@,
            text_view(collection),
            before@,
            after@,
            entry_views(summary@),
        ),
{
    let mut o = no_entries();
    put(&mut o, "database_name", text_value(db));
    match collection {
        Some(c) => put(&mut o, "collectionName", text_value(c)),
        None => {},
    }
    put(&mut o, "before", before);
    put(&mut o, "after", after);
    put(&mut o, "summary", Json::Object(summary));
    let r = Json::Object(o);
    assert(r@->Object_0 == database_event(
        db@,
        text_view(collection),
        before@,
        after@,
        entry_views(summary@),
    )->Object_0);
    r
}

fn entry1(key: &str, v: Json) -> (r: Vec<(String, Json)>)
    ensures
        entry_views(r@) == seq![(key@, v@)],
{
    let mut o = no_entries();
    put(&mut o, key, v);
    assert(entry_views(o@) == seq![(key@, v@)]);
    o
}

fn entry2(a: &str, v: Json, b: &str, w: Json) -> (r: Vec<(String, Json)>)
    ensures
        entry_views(r@) == seq![(a@, v@), (b@, w@)],
{
    let mut o = no_entries();
    put(&mut o, a, v);
    put(&mut o, b, w);
    assert(entry_views(o@) == seq![(a@, v@), (b@, w@)]);
    o
}

fn acknowledged_value(more: Vec<(String, Json)>) -> (r: Json)
    ensures
        r@ == acknowledged(entry_views(more@)),
{
    let ghost m = entry_views(more@);
    let mut more = more;
    let mut o = entry1("acknowledged", Json::Bool(true));
    let ghost start = entry_views(o@);
    o.append(&mut more);
    assert(entry_views(o@) == start + m);
    Json::Object(o)
}

fn import_entries(mode: &str, created: bool, incoming: &Database) -> (r: Vec<(String, Json)>)
    ensures
        entry_views(r@) == import_summary(mode@, created, incoming@),
{
    let mut o = no_entries();
    put(&mut o, "mode", text_value(mode));
    put(&mut o, "created", Json::Bool(created));
    put(&mut o, "importedCollections", nat_value(incoming.collections.len() as u64));
    put(&mut o, "importedDocuments", nat_value(count_docs(incoming)));
    assert(entry_views(o@) == import_summary(mode@, created, incoming@));
    o
}

fn export_entries(database: &Database) -> (r: Vec<(String, Json)>)
    ensures
        entry_views(r@) == exported(database@),
{
    let ghost all = database@;
    let mut o = no_entries();
    let mut i: usize = 0;
    assert(all.take(0) == Seq::<(Seq<char>, Seq<JsonView>)>::empty());
    while i < database.collections.len()
        invariant
            i <= database.collections@.len(),
            all == database@,
            entry_views(o@) == exported(all.take(i as int)),
        decreases database.collections@.len() - i,
    {
        assert(all.take(i + 1).drop_last() == all.take(i as int));
        assert(all.take(i + 1).last() == all[i as int]);
        let name = database.collections[i].0.as_str();
        if !is_reserved_collection(name) {
            set_entry(&mut o, name, Json::Array(copy_list(&database.collections[i].1)));
        }
        i = i + 1;
    }
    assert(all.take(i as int) == all);
    o
}

/// Finishes an operation on a database.
pub fn handle_database_action(
    index_prefix: &str,
    plan: &DatabasePlan,
    existed: bool,
    deleted: bool,
    database: &Database,
) -> (r: DatabaseReply)
    ensures
        r@ == database_reply(index_prefix@, plan@, existed, deleted, database@),
{
    let mut effects = no_database_effects();
    let ghost want = database_reply(index_prefix@, plan@, existed, deleted, database@);
    match plan {
        DatabasePlan::Create { db, .. } => {
            let db = db.as_str();
            let payload = event_payload(
                db,
                None,
                Json::Null,
                Json::Null,
                entry1("database_name", text_value(db)),
            );
            push_database_effect(
                &mut effects,
                DatabaseEffect::Emit { event: owned("createDatabase"), payload },
            );
            assert(database_effect_views(effects@) == want.effects);
            let result = acknowledged_value(entry1("database_name", text_value(db)));
            DatabaseReply { effects, result }
        },
        DatabasePlan::Delete { db } => {
            let db = db.as_str();
            push_database_effect(
                &mut effects,
                DatabaseEffect::InvalidateDatabase { db: owned(db) },
            );
            let pattern = linked(
                linked(linked(index_prefix, "*").as_str(), cache_key_segment(db).as_str()).as_str(),
                "*",
            );
            push_database_effect(&mut effects, DatabaseEffect::ClearIndexes { pattern });
            let payload = event_payload(
                db,
                None,
                Json::Null,
                Json::Null,
                entry1("database_name", text_value(db)),
            );
            push_database_effect(
                &mut effects,
                DatabaseEffect::Emit { event: owned("deleteDatabase"), payload },
            );
            assert(database_effect_views(effects@) == want.effects);
            let result = acknowledged_value(entry1("deleted", Json::Bool(true)));
            DatabaseReply { effects, result }
        },
        DatabasePlan::Rename { from, to } => {
            let from = from.as_str();
            let to = to.as_str();
            push_database_effect(
                &mut effects,
                DatabaseEffect::InvalidateDatabase { db: owned(from) },
            );
            let payload = event_payload(
                to,
                None,
                text_value(from),
                text_value(to),
                entry2("from", text_value(from), "to", text_value(to)),
            );
            push_database_effect(
                &mut effects,
                DatabaseEffect::Emit { event: owned("renameDatabase"), payload },
            );
            assert(database_effect_views(effects@) == want.effects);
            let result = acknowledged_value(
                entry2("from", text_value(from), "to", text_value(to)),
            );
            DatabaseReply { effects, result }
        },
        DatabasePlan::CreateCollection { db, collection, .. } => {
            let db = db.as_str();
            let c = collection.as_str();
            let payload = event_payload(
                db,
                Some(c),
                Json::Null,
                Json::Null,
                entry1("collectionName", text_value(c)),
            );
            push_database_effect(
                &mut effects,
                DatabaseEffect::Emit { event: owned("createCollection"), payload },
            );
            assert(database_effect_views(effects@) == want.effects);
            let result = acknowledged_value(
                entry2("database_name", text_value(db), "collectionName", text_value(c)),
            );
            DatabaseReply { effects, result }
        },
        DatabasePlan::DeleteCollection { db, collection } => {
            let db = db.as_str();
            let c = collection.as_str();
            push_database_effect(
                &mut effects,
                DatabaseEffect::InvalidateCollection { db: owned(db), collection: owned(c) },
            );
            push_database_effect(
                &mut effects,
                DatabaseEffect::DropIndexes { db: owned(db), collection: owned(c) },
            );
            let payload = event_payload(
                db,
                Some(c),
                Json::Null,
                Json::Null,
                entry2("collectionName", text_value(c), "deleted", Json::Bool(deleted)),
            );
            push_database_effect(
                &mut effects,
                DatabaseEffect::Emit { event: owned("deleteCollection"), payload },
            );
            assert(database_effect_views(effects@) == want.effects);
            let result = acknowledged_value(entry1("deleted", Json::Bool(deleted)));
            DatabaseReply { effects, result }
        },
        DatabasePlan::RenameCollection { db, from, to } => {
            let db = db.as_str();
            let from = from.as_str();
            let to = to.as_str();
            push_database_effect(
                &mut effects,
                DatabaseEffect::InvalidateCollection { db: owned(db), collection: owned(from) },
            );
            let payload = event_payload(
                db,
                Some(to),
                text_value(from),
                text_value(to),
                entry2("from", text_value(from), "to", text_value(to)),
            );
            push_database_effect(
                &mut effects,
                DatabaseEffect::Emit { event: owned("renameCollection"), payload },
            );
            assert(database_effect_views(effects@) == want.effects);
            let result = acknowledged_value(
                entry2("from", text_value(from), "to", text_value(to)),
            );
            DatabaseReply { effects, result }
        },
        DatabasePlan::Export { .. } => {
            DatabaseReply { effects, result: Json::Object(export_entries(database)) }
        },
        DatabasePlan::Import { db, mode, incoming } => {
            let db = db.as_str();
            push_database_effect(
                &mut effects,
                DatabaseEffect::InvalidateDatabase { db: owned(db) },
            );
            let payload = event_payload(
                db,
                None,
                Json::Null,
                Json::Null,
                import_entries(mode.as_str(), !existed, incoming),
            );
            push_database_effect(
                &mut effects,
                DatabaseEffect::Emit { event: owned("importDatabase"), payload },
            );
            assert(database_effect_views(effects@) == want.effects);
            let mut o = entry1("database_name", text_value(db));
            let ghost start = entry_views(o@);
            let mut more = import_entries(mode.as_str(), !existed, incoming);
            let ghost m = entry_views(more@);
            o.append(&mut more);
            assert(entry_views(o@) == start + m);
            DatabaseReply { effects, result: acknowledged_value(o) }
        },
    }
}

/// What a change does to the stored collections.
pub open spec fn stored(
    store: Map<Seq<char>, Seq<JsonView>>,
    c: StoreView,
) -> Map<Seq<char>, Seq<JsonView>> {
    match c {
        StoreView::Drop { collection } => store.remove(collection),
        StoreView::EnsureDatabase => store,
        StoreView::Create { collection } => store.insert(collection, Seq::empty()),
        StoreView::Clear { collection } => store.insert(collection, Seq::empty()),
        StoreView::Insert { collection, docs } => store.insert(
            collection,
            store[collection] + docs,
        ),
    }
}

/// What changes do to the stored collections, one after the other.
pub open spec fn stored_all(
    store: Map<Seq<char>, Seq<JsonView>>,
    c: Seq<StoreView>,
) -> Map<Seq<char>, Seq<JsonView>>
    decreases c.len(),
{
    if c.len() == 0 {
        store
    } else {
        stored(stored_all(store, c.drop_last()), c.last())
    }
}

proof fn lemma_stored_concat(
    store: Map<Seq<char>, Seq<JsonView>>,
    a: Seq<StoreView>,
    b: Seq<StoreView>,
)
    ensures
        stored_all(store, a + b) == stored_all(stored_all(store, a), b),
    decreases b.len(),
{
    if b.len() == 0 {
        assert(a + b == a);
    } else {
        assert((a + b).drop_last() == a + b.drop_last());
        lemma_stored_concat(store, a, b.drop_last());
    }
}

proof fn lemma_drops(
    store: Map<Seq<char>, Seq<JsonView>>,
    existing: Seq<Seq<char>>,
    db: Seq<(Seq<char>, Seq<JsonView>)>,
    n: Seq<char>,
)
    ensures
        stored_all(store, drops(existing, db)).dom().contains(n) <==> store.dom().contains(n) && !(
        existing.contains(n) && collection_at(db, n) >= db.len()),
        stored_all(store, drops(existing, db)).dom().contains(n) ==> stored_all(
            store,
            drops(existing, db),
        )[n] == store[n],
    decreases existing.len(),
{
    if existing.len() > 0 {
        let rest = existing.drop_last();
        let last = existing.last();
        lemma_drops(store, rest, db, n);
        lemma_collection_at(db, last);
        let d = drops(existing, db);
        assert(existing[existing.len() - 1] == last);
        assert(existing.contains(n) <==> rest.contains(n) || n == last) by {
            if existing.contains(n) {
                let i = choose|i: int| 0 <= i < existing.len() && existing[i] == n;
                if i < rest.len() {
                    assert(rest[i] == n);
                }
            }
            if rest.contains(n) {
                let i = choose|i: int| 0 <= i < rest.len() && rest[i] == n;
                assert(existing[i] == n);
            }
        }
        if collection_at(db, last) >= db.len() {
            assert(d.drop_last() == drops(rest, db));
            assert(d.last() == StoreView::Drop { collection: last });
            assert(stored_all(store, d) == stored_all(store, drops(rest, db)).remove(last));
        } else {
            assert(d == drops(rest, db));
        }
    }
}

/// Whether no two collections have the same name.
pub open spec fn distinct_names(db: Seq<(Seq<char>, Seq<JsonView>)>) -> bool {
    forall|i: int, j: int| 0 <= i < j < db.len() ==> (#[trigger] db[i]).0 != (#[trigger] db[j]).0
}

proof fn lemma_collection_writes(
    store: Map<Seq<char>, Seq<JsonView>>,
    existing: Seq<Seq<char>>,
    name: Seq<char>,
    docs: Seq<JsonView>,
)
    ensures
        stored_all(store, collection_writes(existing, name, docs)) == store.insert(name, docs),
{
    let w = collection_writes(existing, name, docs);
    let a: Seq<StoreView> = if existing.contains(name) {
        Seq::empty()
    } else {
        seq![StoreView::Create { collection: name }]
    };
    let b = seq![StoreView::Clear { collection: name }];
    let c: Seq<StoreView> = if docs.len() == 0 {
        Seq::empty()
    } else {
        seq![StoreView::Insert { collection: name, docs }]
    };
    assert(w == a + b + c);
    lemma_stored_concat(store, a + b, c);
    lemma_stored_concat(store, a, b);
    let s1 = stored_all(store, a);
    let s2 = stored_all(s1, b);
    assert(a.len() > 0 ==> a.drop_last() == Seq::<StoreView>::empty());
    assert(b.drop_last() == Seq::<StoreView>::empty());
    assert(stored_all(s1, b.drop_last()) == s1);
    assert(s2 == s1.insert(name, Seq::empty()));
    if docs.len() > 0 {
        assert(c.drop_last() == Seq::<StoreView>::empty());
        assert(stored_all(s2, c.drop_last()) == s2);
        assert(Seq::<JsonView>::empty() + docs == docs);
        assert(stored_all(s2, c) == s2.insert(name, docs));
    } else {
        assert(docs == Seq::<JsonView>::empty());
        assert(stored_all(s2, c) == s2);
    }
    if a.len() > 0 {
        assert(stored_all(store, a.drop_last()) == store);
        assert(s1 == store.insert(name, Seq::empty()));
    }
    assert(stored_all(store, w) == store.insert(name, docs));
}

proof fn lemma_writes(
    store: Map<Seq<char>, Seq<JsonView>>,
    existing: Seq<Seq<char>>,
    db: Seq<(Seq<char>, Seq<JsonView>)>,
    n: Seq<char>,
)
    requires
        distinct_names(db),
    ensures
        stored_all(store, writes(existing, db)).dom().contains(n) <==> store.dom().contains(n)
            || collection_at(db, n) < db.len(),
        collection_at(db, n) < db.len() ==> stored_all(store, writes(existing, db))[n] == docs_in(
            db,
            n,
        ),
        collection_at(db, n) >= db.len() && store.dom().contains(n) ==> stored_all(
            store,
            writes(existing, db),
        )[n] == store[n],
    decreases db.len(),
{
    if db.len() > 0 {
        let rest = db.drop_last();
        let (name, docs) = db.last();
        assert(distinct_names(rest)) by {
            assert forall|i: int, j: int| 0 <= i < j < rest.len() implies (#[trigger] rest[i]).0
                != (#[trigger] rest[j]).0 by {
                assert(rest[i] == db[i] && rest[j] == db[j]);
            }
        }
        lemma_writes(store, existing, rest, n);
        let head = writes(existing, rest);
        lemma_stored_concat(store, head, collection_writes(existing, name, docs));
        lemma_collection_writes(stored_all(store, head), existing, name, docs);
        lemma_collection_at(db, n);
        lemma_collection_at(rest, n);
        let last = db.len() - 1;
        assert(db[last] == db.last());
        if n == name {
            assert forall|j: int| 0 <= j < last implies (#[trigger] db[j]).0 != n by {}
            lemma_collection_at_is(db, n, last);
        } else if collection_at(rest, n) < rest.len() {
            let k = collection_at(rest, n) as int;
            assert forall|j: int| 0 <= j < k implies (#[trigger] db[j]).0 != n by {
                assert(db[j] == rest[j]);
            }
            assert(db[k] == rest[k]);
            lemma_collection_at_is(db, n, k);
        } else {
            assert forall|j: int| 0 <= j < db.len() implies (#[trigger] db[j]).0 != n by {
                if j < last {
                    assert(db[j] == rest[j]);
                }
            }
            lemma_collection_at_is(db, n, db.len() as int);
        }
    }
}

proof fn lemma_visible(names: Seq<Seq<char>>, reserved: spec_fn(Seq<char>) -> bool)
    ensures
        forall|n: Seq<char>| #[trigger]
            visible(names, reserved).contains(n) <==> names.contains(n) && !reserved(n),
    decreases names.len(),
{
    if names.len() > 0 {
        let rest = names.drop_last();
        let head = visible(rest, reserved);
        let v = visible(names, reserved);
        lemma_visible(rest, reserved);
        assert(v == if reserved(names.last()) {
            head
        } else {
            head.push(names.last())
        });
        assert forall|n: Seq<char>| #[trigger] v.contains(n) <==> names.contains(n) && !reserved(
            n,
        ) by {
            if v.contains(n) {
                let i = choose|i: int| 0 <= i < v.len() && v[i] == n;
                if i < head.len() {
                    assert(head[i] == n);
                    assert(head.contains(n));
                    let j = choose|j: int| 0 <= j < rest.len() && rest[j] == n;
                    assert(names[j] == n);
                } else {
                    assert(names[names.len() - 1] == n);
                }
            }
            if names.contains(n) && !reserved(n) {
                let i = choose|i: int| 0 <= i < names.len() && names[i] == n;
                if i < rest.len() {
                    assert(rest[i] == n);
                    assert(rest.contains(n));
                    assert(head.contains(n));
                    let j = choose|j: int| 0 <= j < head.len() && head[j] == n;
                    assert(v[j] == n);
                } else {
                    assert(v[head.len() as int] == n);
                }
            }
        }
    }
}

/// The names that are shown are those that are there and not reserved.
pub proof fn lemma_visible_names(names: Seq<Seq<char>>, n: Seq<char>)
    ensures
        visible_databases(names).contains(n) <==> names.contains(n) && !reserved_database(n),
        visible_collections(names).contains(n) <==> names.contains(n) && !reserved_collection(n),
{
    lemma_visible(names, |n: Seq<char>| reserved_database(n));
    lemma_visible(names, |n: Seq<char>| reserved_collection(n));
}

/// After a database is saved, its collections are stored with their documents,
/// and no other collections but reserved ones, which are as they were.
pub proof fn lemma_save_stores_database(
    store: Map<Seq<char>, Seq<JsonView>>,
    names: Seq<Seq<char>>,
    db: Seq<(Seq<char>, Seq<JsonView>)>,
    n: Seq<char>,
)
    requires
        forall|m: Seq<char>| #[trigger] store.dom().contains(m) <==> names.contains(m),
        distinct_names(db),
        forall|i: int| 0 <= i < db.len() ==> !reserved_collection((#[trigger] db[i]).0),
    ensures
        stored_all(store, save_plan(names, db)).dom().contains(n) <==> collection_at(db, n)
            < db.len() || (reserved_collection(n) && store.dom().contains(n)),
        collection_at(db, n) < db.len() ==> stored_all(store, save_plan(names, db))[n] == docs_in(
            db,
            n,
        ),
        reserved_collection(n) && store.dom().contains(n) ==> stored_all(
            store,
            save_plan(names, db),
        )[n] == store[n],
{
    let existing = visible_collections(names);
    let d = drops(existing, db);
    let s = stored_all(store, d);
    lemma_visible(names, |n: Seq<char>| reserved_collection(n));
    assert(existing.contains(n) <==> names.contains(n) && !reserved_collection(n));
    lemma_drops(store, existing, db, n);
    lemma_collection_at(db, n);
    assert(s.dom().contains(n) <==> store.dom().contains(n) && !(existing.contains(n)
        && collection_at(db, n) >= db.len()));
    assert(s.dom().contains(n) ==> s[n] == store[n]);
    if db.len() == 0 {
        let w = seq![StoreView::EnsureDatabase];
        lemma_stored_concat(store, d, w);
        assert(w.drop_last() == Seq::<StoreView>::empty());
        assert(stored_all(s, w.drop_last()) == s);
    } else {
        lemma_stored_concat(store, d, writes(existing, db));
        lemma_writes(s, existing, db, n);
    }
}

} // verus!
