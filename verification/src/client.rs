//! The client of the database: the messages that it sends, what it makes of
//! those that come in, and how it keeps its connection.

use crate::config::setting_views;
use crate::findcache::{
    after_change, build_find_cache_key, cache_views, clear_find_caches_for_collection, distinct_names,
    find_key, int_json, int_value, keep_result, keeping, kept, kept_result, lemma_kept_reads_back,
    no_options, refreshed_all, update_find_caches_from_change, weights_entries, weights_value,
    without_collection, ChangeEvent, ChangeView, EntryView, FindCacheEntry, FindOptions, OptionsView,
};
use crate::json::{entry_views, views, Json, JsonView};
use crate::object::{
    bool_of, cloned_json, empty_object, field, has_key, key_index, lookup, own_view, set_entry, str_of,
    text_value, with_key,
};
use crate::request::{no_entries, put};
use crate::server::{text_array, text_array_value};
use crate::text::{cat, owned, same_text, texts};
use crate::update::copy_list;
use crate::url::{resolve_ws_url, url_of};
use crate::wire::{from_text, parsed, text_of, to_text};
use vstd::prelude::*;

verus! {

broadcast use crate::json::group_json_views;

/// How long an answer is waited for.
pub const REQUEST_TIMEOUT_MS: u64 = 15000;

/// How long a client waits before it connects again.
pub const RECONNECT_DELAY_MS: u64 = 3000;

/// How often a client looks whether it has been closed.
pub const CLOSE_CHECK_MS: u64 = 500;

/// How long a request waits before it looks again for a connection.
pub const READY_CHECK_MS: u64 = 100;

/// How often a request looks for a connection.
pub const READY_CHECKS: u32 = 50;

/// What comes of an insertion.
#[derive(Debug)]
pub struct InsertResult {
    pub acknowledged: bool,
    pub inserted_id: Option<Json>,
    pub extra: Vec<(String, Json)>,
}

/// What comes of an update or a replacement.
#[derive(Debug)]
pub struct UpdateResult {
    pub acknowledged: bool,
    pub modified_count: i64,
    pub upserted_count: i64,
    pub upserted_id: Option<Json>,
    pub matched_count: i64,
    pub extra: Vec<(String, Json)>,
}

/// What comes of a deletion.
#[derive(Debug)]
pub struct DeleteResult {
    pub acknowledged: bool,
    pub deleted_count: i64,
    pub extra: Vec<(String, Json)>,
}

/// A client: the database that it is for, the state of its connection, the
/// requests that wait for an answer, oldest first, the messages that wait for a
/// connection, the listeners, and the results that it keeps.
#[derive(Debug)]
pub struct MicroserviceDBAPI {
    pub database_name: String,
    pub precache_collections: Vec<String>,
    pub ready: bool,
    pub closed: bool,
    pub outgoing: bool,
    pub pending: Vec<u64>,
    pub offline_queue: Vec<Json>,
    pub listeners: Vec<u64>,
    pub find_cache: Vec<FindCacheEntry>,
}

/// What a client is.
#[verifier::ext_equal]
pub struct ClientView {
    pub database_name: Seq<char>,
    pub precache: Seq<Seq<char>>,
    pub ready: bool,
    pub closed: bool,
    pub outgoing: bool,
    pub pending: Seq<u64>,
    pub offline: Seq<JsonView>,
    pub listeners: Seq<u64>,
    pub cache: Seq<EntryView>,
}

impl View for MicroserviceDBAPI {
    type V = ClientView;

    open spec fn view(&self) -> ClientView {
        ClientView {
            database_name: self.database_name@,
            precache: texts(self.precache_collections@),
            ready: self.ready,
            closed: self.closed,
            outgoing: self.outgoing,
            pending: self.pending@,
            offline: views(self.offline_queue@),
            listeners: self.listeners@,
            cache: cache_views(self.find_cache@),
        }
    }
}

/// A request for an operation on a collection.
pub open spec fn action_json(func: Seq<char>, payload: Seq<(Seq<char>, JsonView)>) -> JsonView {
    JsonView::Object(
        seq![
            ("type"@, JsonView::String("action"@)),
            ("category"@, JsonView::String("collection"@)),
            ("function_name"@, JsonView::String(func)),
            ("payload"@, JsonView::Object(payload)),
        ],
    )
}

fn action(func: &str, payload: Vec<(String, Json)>) -> (r: Json)
    ensures
        r@ == action_json(func@, entry_views(payload@)),
{
    let ghost p = entry_views(payload@);
    let mut o = no_entries();
    put(&mut o, "type", text_value("action"));
    put(&mut o, "category", text_value("collection"));
    put(&mut o, "function_name", text_value(func));
    put(&mut o, "payload", Json::Object(payload));
    let r = Json::Object(o);
    assert(r@->Object_0 == action_json(func@, p)->Object_0);
    r
}

/// What an operation on a collection is about.
pub open spec fn target(db: Seq<char>, collection: Seq<char>) -> Seq<(Seq<char>, JsonView)> {
    seq![
        ("database_name"@, JsonView::String(db)),
        ("collectionName"@, JsonView::String(collection)),
    ]
}

fn target_entries(db: &str, collection: &str) -> (r: Vec<(String, Json)>)
    ensures
        entry_views(r@) == target(db@, collection@),
{
    let mut o = no_entries();
    put(&mut o, "database_name", text_value(db));
    put(&mut o, "collectionName", text_value(collection));
    o
}

/// The given value, or an empty object.
pub open spec fn or_object(v: Option<JsonView>) -> JsonView {
    match v {
        Some(x) => x,
        None => JsonView::Object(Seq::empty()),
    }
}

fn or_empty_object(v: &Option<Json>) -> (r: Json)
    ensures
        r@ == or_object(own_view(*v)),
{
    match v {
        Some(x) => x.clone(),
        None => {
            let r = empty_object();
            assert(r@->Object_0 == Seq::<(Seq<char>, JsonView)>::empty());
            r
        },
    }
}

/// The given options, or none in particular.
pub open spec fn or_default(o: Option<FindOptions>) -> OptionsView {
    match o {
        Some(x) => x@,
        None => no_options(),
    }
}

fn options_or_default(o: &Option<FindOptions>) -> (r: FindOptions)
    ensures
        r@ == or_default(*o),
{
    match o {
        Some(x) => x.clone(),
        None => FindOptions { sort: None, projection: None, limit: None, skip: None },
    }
}

/// What a query asks for.
pub open spec fn find_payload(
    db: Seq<char>,
    collection: Seq<char>,
    query: JsonView,
    o: OptionsView,
) -> Seq<(Seq<char>, JsonView)> {
    target(db, collection) + seq![("filter"@, query)] + (match o.sort {
        Some(s) => seq![("sort"@, JsonView::Object(weights_entries(s)))],
        None => Seq::empty(),
    }) + (match o.projection {
        Some(p) => seq![("projection"@, JsonView::Object(weights_entries(p)))],
        None => Seq::empty(),
    }) + (match o.limit {
        Some(n) => seq![("limit"@, int_json(n as int))],
        None => Seq::empty(),
    }) + (match o.skip {
        Some(n) => seq![("skip"@, int_json(n as int))],
        None => Seq::empty(),
    })
}

fn put_weights(o: &mut Vec<(String, Json)>, key: &str, w: &Option<Vec<(String, i32)>>)
    ensures
        entry_views(final(o)@) == entry_views(old(o)@) + (match crate::findcache::opt_weights(*w) {
            Some(s) => seq![(key@, JsonView::Object(weights_entries(s)))],
            None => Seq::empty(),
        }),
{
    match w {
        Some(s) => put(o, key, weights_value(s)),
        None => {
            assert(entry_views(o@) + Seq::<(Seq<char>, JsonView)>::empty() == entry_views(o@));
        },
    }
}

fn put_number(o: &mut Vec<(String, Json)>, key: &str, n: Option<i64>)
    ensures
        entry_views(final(o)@) == entry_views(old(o)@) + (match n {
            Some(i) => seq![(key@, int_json(i as int))],
            None => Seq::empty(),
        }),
{
    match n {
        Some(i) => put(o, key, int_value(i)),
        None => {
            assert(entry_views(o@) + Seq::<(Seq<char>, JsonView)>::empty() == entry_views(o@));
        },
    }
}

/// A document with an id: its own, or where it has none the given one.
pub open spec fn with_id(doc: JsonView, id: Option<JsonView>) -> JsonView {
    match (doc, id) {
        (JsonView::Object(o), Some(i)) => if has_key(o, "_id"@) {
            doc
        } else {
            JsonView::Object(with_key(o, "_id"@, i))
        },
        _ => doc,
    }
}

fn add_id(doc: &Json, id: &Option<Json>) -> (r: Json)
    ensures
        r@ == with_id(doc@, own_view(*id)),
{
    match (doc, id) {
        (Json::Object(o), Some(i)) => {
            if key_index(o, "_id") < o.len() {
                doc.clone()
            } else {
                let mut o = copy_entries(o);
                set_entry(&mut o, "_id", i.clone());
                Json::Object(o)
            }
        },
        _ => doc.clone(),
    }
}

fn copy_entries(o: &Vec<(String, Json)>) -> (r: Vec<(String, Json)>)
    ensures
        entry_views(r@) == entry_views(o@),
{
    let ghost all = entry_views(o@);
    let mut r = no_entries();
    let mut i: usize = 0;
    assert(entry_views(r@) == all.take(0));
    while i < o.len()
        invariant
            i <= o@.len(),
            all == entry_views(o@),
            entry_views(r@) == all.take(i as int),
        decreases o@.len() - i,
    {
        put(&mut r, o[i].0.as_str(), o[i].1.clone());
        assert(all.take(i + 1) == all.take(i as int).push(all[i as int]));
        i = i + 1;
    }
    assert(all.take(i as int) == all);
    r
}

/// The id that a filter asks for, if it asks for nothing else.
pub open spec fn sole_id(filter: JsonView) -> Option<JsonView> {
    match filter {
        JsonView::Object(o) => if o.len() == 1 {
            lookup(o, "_id"@)
        } else {
            None
        },
        _ => None,
    }
}

fn filter_id(filter: &Json) -> (r: Option<Json>)
    ensures
        own_view(r) == sole_id(filter@),
{
    match filter {
        Json::Object(o) => if o.len() == 1 {
            cloned_json(filter.get("_id"))
        } else {
            None
        },
        _ => None,
    }
}

/// The document of which nothing is known but its id.
pub open spec fn id_only(id: Option<JsonView>) -> Option<JsonView> {
    match id {
        Some(i) => Some(JsonView::Object(seq![("_id"@, i)])),
        None => None,
    }
}

fn only_id(id: &Option<Json>) -> (r: Option<Json>)
    ensures
        own_view(r) == id_only(own_view(*id)),
{
    match id {
        Some(i) => {
            let mut o = no_entries();
            put(&mut o, "_id", i.clone());
            let r = Json::Object(o);
            assert(r@->Object_0 == seq![("_id"@, i@)]);
            Some(r)
        },
        None => None,
    }
}

/// A change that this client made to a collection.
pub open spec fn own_change(
    collection: Seq<char>,
    event: Seq<char>,
    before: Option<JsonView>,
    after: Option<JsonView>,
) -> ChangeView {
    ChangeView { category: "collection"@, collection_name: collection, event, before, after }
}

/// The message that asks to insert a document.
pub open spec fn insert_message(db: Seq<char>, collection: Seq<char>, document: JsonView) -> JsonView {
    action_json("insertOne"@, target(db, collection).push(("document"@, document)))
}

/// The message that asks for one document.
pub open spec fn find_one_message(db: Seq<char>, collection: Seq<char>, query: JsonView) -> JsonView {
    action_json("findOne"@, target(db, collection).push(("filter"@, query)))
}

/// The message that asks for documents.
pub open spec fn find_message(
    db: Seq<char>,
    collection: Seq<char>,
    query: JsonView,
    options: OptionsView,
) -> JsonView {
    action_json("find"@, find_payload(db, collection, query, options))
}

/// The message that asks to write documents to a collection.
pub open spec fn write_message(db: Seq<char>, collection: Seq<char>, data: JsonView) -> JsonView {
    action_json("updateCollection"@, target(db, collection).push(("data"@, data)))
}

/// The message that asks to update a document.
pub open spec fn update_message(
    db: Seq<char>,
    collection: Seq<char>,
    filter: JsonView,
    update: JsonView,
    options: JsonView,
) -> JsonView {
    action_json(
        "updateOne"@,
        target(db, collection).push(("filter"@, filter)).push(("update"@, update)).push(
            ("options"@, options),
        ),
    )
}

/// The message that asks to replace a document.
pub open spec fn replace_message(
    db: Seq<char>,
    collection: Seq<char>,
    filter: JsonView,
    replacement: JsonView,
    options: JsonView,
) -> JsonView {
    action_json(
        "replaceOne"@,
        target(db, collection).push(("filter"@, filter)).push(("replacement"@, replacement)).push(
            ("options"@, options),
        ),
    )
}

/// The message that asks to delete a document.
pub open spec fn delete_message(db: Seq<char>, collection: Seq<char>, filter: JsonView) -> JsonView {
    action_json("deleteOne"@, target(db, collection).push(("filter"@, filter)))
}

/// The message that asks the server to have collections at hand.
pub open spec fn precache_message(db: Seq<char>, collections: Seq<Seq<char>>) -> JsonView {
    JsonView::Object(
        seq![
            ("type"@, JsonView::String("precache"@)),
            ("database_name"@, JsonView::String(db)),
            ("collections"@, text_array(collections)),
        ],
    )
}

/// The message that asks what the server says of itself.
pub open spec fn metadata_message(db: Seq<char>) -> JsonView {
    JsonView::Object(
        seq![
            ("type"@, JsonView::String("metadata"@)),
            ("database_name"@, JsonView::String(db)),
        ],
    )
}

/// The change that a client knows of after it inserted a document.
pub open spec fn insert_change(
    collection: Seq<char>,
    document: JsonView,
    id: Option<JsonView>,
) -> ChangeView {
    own_change(collection, "insertOne"@, None, Some(with_id(document, id)))
}

/// The change that a client knows of after it replaced a document, if something
/// changed.
pub open spec fn replace_change(
    collection: Seq<char>,
    filter: JsonView,
    replacement: JsonView,
    modified: int,
    upserted: int,
    upserted_id: Option<JsonView>,
) -> Option<ChangeView> {
    let id = sole_id(filter);
    if modified > 0 || upserted > 0 {
        Some(
            own_change(
                collection,
                "replaceOne"@,
                id_only(id),
                Some(
                    with_id(
                        replacement,
                        if id is Some {
                            id
                        } else {
                            upserted_id
                        },
                    ),
                ),
            ),
        )
    } else {
        None
    }
}

/// The change that a client knows of after it deleted a document, if one was
/// deleted.
pub open spec fn delete_change(collection: Seq<char>, filter: JsonView, deleted: int) -> Option<
    ChangeView,
> {
    if deleted > 0 {
        Some(own_change(collection, "deleteOne"@, id_only(sole_id(filter)), None))
    } else {
        None
    }
}

/// What a client keeps after an update: nothing of the collection, if something
/// changed.
pub open spec fn kept_after_update(
    cache: Seq<EntryView>,
    collection: Seq<char>,
    modified: int,
    upserted: int,
) -> Seq<EntryView> {
    if modified > 0 || upserted > 0 {
        without_collection(cache, collection)
    } else {
        cache
    }
}

/// What a client is once it is closed.
pub open spec fn closed_client(c: ClientView) -> ClientView {
    ClientView { closed: true, ready: false, pending: Seq::empty(), cache: Seq::empty(), ..c }
}

/// What a client is once it has sent a request.
pub open spec fn submitted(c: ClientView, request: u64, message: JsonView) -> ClientView {
    ClientView {
        pending: c.pending.push(request),
        offline: if c.ready {
            c.offline
        } else {
            c.offline.push(message)
        },
        ..c
    }
}

/// A name added to others, unless it is empty or among them.
pub open spec fn joined_name(names: Seq<Seq<char>>, name: Seq<char>) -> Seq<Seq<char>> {
    if name.len() == 0 || names.contains(name) {
        names
    } else {
        names.push(name)
    }
}

/// Names added to others.
pub open spec fn joined_names(names: Seq<Seq<char>>, more: Seq<Seq<char>>) -> Seq<Seq<char>>
    decreases more.len(),
{
    if more.len() == 0 {
        names
    } else {
        joined_name(joined_names(names, more.drop_last()), more.last())
    }
}

/// The names that are not empty.
pub open spec fn nonempty_names(names: Seq<Seq<char>>) -> Seq<Seq<char>>
    decreases names.len(),
{
    if names.len() == 0 {
        names
    } else if names.last().len() == 0 {
        nonempty_names(names.drop_last())
    } else {
        nonempty_names(names.drop_last()).push(names.last())
    }
}

fn is_among(names: &Vec<String>, name: &str) -> (r: bool)
    ensures
        r == texts(names@).contains(name@),
{
    let ghost all = texts(names@);
    let mut i: usize = 0;
    while i < names.len()
        invariant
            i <= names@.len(),
            all == texts(names@),
            forall|j: int| 0 <= j < i ==> #[trigger] all[j] != name@,
        decreases names@.len() - i,
    {
        if same_text(names[i].as_str(), name) {
            assert(all[i as int] == name@);
            return true;
        }
        assert(all[i as int] != name@);
        i = i + 1;
    }
    false
}

fn is_blank(s: &str) -> (r: bool)
    ensures
        r == (s@.len() == 0),
{
    crate::text::chars_of(s).len() == 0
}

fn join_names(names: Vec<String>, more: &Vec<String>) -> (r: Vec<String>)
    ensures
        texts(r@) == joined_names(texts(names@), texts(more@)),
{
    let ghost start = texts(names@);
    let ghost all = texts(more@);
    let mut names = names;
    let mut i: usize = 0;
    assert(all.take(0) == Seq::<Seq<char>>::empty());
    while i < more.len()
        invariant
            i <= more@.len(),
            all == texts(more@),
            texts(names@) == joined_names(start, all.take(i as int)),
        decreases more@.len() - i,
    {
        assert(all.take(i + 1).drop_last() == all.take(i as int));
        assert(all.take(i + 1).last() == all[i as int]);
        let name = more[i].as_str();
        if !is_blank(name) && !is_among(&names, name) {
            let ghost before = texts(names@);
            names.push(owned(name));
            assert(texts(names@) == before.push(all[i as int]));
        }
        i = i + 1;
    }
    assert(all.take(i as int) == all);
    names
}

fn drop_blank(names: &Vec<String>) -> (r: Vec<String>)
    ensures
        texts(r@) == nonempty_names(texts(names@)),
{
    let ghost all = texts(names@);
    let mut out: Vec<String> = Vec::new();
    let mut i: usize = 0;
    assert(all.take(0) == Seq::<Seq<char>>::empty());
    assert(texts(out@) == Seq::<Seq<char>>::empty());
    while i < names.len()
        invariant
            i <= names@.len(),
            all == texts(names@),
            texts(out@) == nonempty_names(all.take(i as int)),
        decreases names@.len() - i,
    {
        assert(all.take(i + 1).drop_last() == all.take(i as int));
        assert(all.take(i + 1).last() == all[i as int]);
        if !is_blank(names[i].as_str()) {
            let ghost before = texts(out@);
            out.push(names[i].clone());
            assert(texts(out@) == before.push(all[i as int]));
        }
        i = i + 1;
    }
    assert(all.take(i as int) == all);
    out
}

/// A client that has not connected yet.
pub open spec fn new_client(db: Seq<char>, collections: Seq<Seq<char>>) -> ClientView {
    ClientView {
        database_name: db,
        precache: nonempty_names(collections),
        ready: false,
        closed: false,
        outgoing: true,
        pending: Seq::empty(),
        offline: Seq::empty(),
        listeners: Seq::empty(),
        cache: Seq::empty(),
    }
}

/// Listeners without the one that was added last under a number, if there is
/// one; the others keep their order.
pub open spec fn without_listener(listeners: Seq<u64>, listener: u64) -> Seq<u64>
    decreases listeners.len(),
{
    if listeners.len() == 0 {
        listeners
    } else if listeners.last() == listener {
        listeners.drop_last()
    } else {
        without_listener(listeners.drop_last(), listener).push(listeners.last())
    }
}

proof fn lemma_without_listener(listeners: Seq<u64>, listener: u64, at: int)
    requires
        0 <= at < listeners.len(),
        listeners[at] == listener,
        forall|j: int| at < j < listeners.len() ==> listeners[j] != listener,
    ensures
        without_listener(listeners, listener) == listeners.remove(at),
    decreases listeners.len(),
{
    if at == listeners.len() - 1 {
        assert(listeners.drop_last() == listeners.remove(at));
    } else {
        let rest = listeners.drop_last();
        lemma_without_listener(rest, listener, at);
        assert(rest.remove(at).push(listeners.last()) == listeners.remove(at));
    }
}

proof fn lemma_without_unknown_listener(listeners: Seq<u64>, listener: u64)
    requires
        !listeners.contains(listener),
    ensures
        without_listener(listeners, listener) == listeners,
    decreases listeners.len(),
{
    if listeners.len() > 0 {
        let rest = listeners.drop_last();
        assert forall|i: int| 0 <= i < rest.len() implies rest[i] != listener by {
            assert(rest[i] == listeners[i]);
        }
        lemma_without_unknown_listener(rest, listener);
        assert(rest.push(listeners.last()) == listeners);
    }
}

/// To take a listener back undoes adding it, whichever others were added before
/// and since then: they all stay, in their order.
pub proof fn lemma_unsubscribing_undoes_subscribing(
    before: Seq<u64>,
    listener: u64,
    since: Seq<u64>,
)
    requires
        !since.contains(listener),
    ensures
        without_listener(before.push(listener) + since, listener) == before + since,
{
    let all = before.push(listener) + since;
    let at = before.len() as int;
    assert forall|j: int| at < j < all.len() implies all[j] != listener by {
        assert(all[j] == since[j - at - 1]);
    }
    lemma_without_listener(all, listener, at);
    assert(all.remove(at) == before + since);
}

/// The databases for which there are clients, each once.
#[derive(Debug)]
pub struct Registry {
    pub names: Vec<String>,
}

/// Where a name stands among others; behind the last one where it does not.
pub open spec fn name_at(names: Seq<Seq<char>>, name: Seq<char>) -> nat
    decreases names.len(),
{
    if names.len() == 0 || names[0] == name {
        0
    } else {
        name_at(names.drop_first(), name) + 1
    }
}

proof fn lemma_name_at_is(names: Seq<Seq<char>>, name: Seq<char>, at: int)
    requires
        0 <= at <= names.len(),
        at < names.len() ==> names[at] == name,
        forall|i: int| 0 <= i < at ==> #[trigger] names[i] != name,
    ensures
        name_at(names, name) == at,
    decreases at,
{
    if at > 0 {
        assert(names[0] != name);
        let rest = names.drop_first();
        assert forall|i: int| 0 <= i < at - 1 implies #[trigger] rest[i] != name by {
            assert(rest[i] == names[i + 1]);
        }
        lemma_name_at_is(rest, name, at - 1);
    }
}

proof fn lemma_name_at(names: Seq<Seq<char>>, name: Seq<char>)
    ensures
        name_at(names, name) <= names.len(),
        name_at(names, name) < names.len() ==> names[name_at(names, name) as int] == name,
        forall|i: int| 0 <= i < name_at(names, name) ==> #[trigger] names[i] != name,
    decreases names.len(),
{
    if names.len() > 0 && names[0] != name {
        let rest = names.drop_first();
        lemma_name_at(rest, name);
        assert forall|i: int| 0 <= i < name_at(names, name) implies #[trigger] names[i] != name by {
            if i > 0 {
                assert(rest[i - 1] == names[i]);
            }
        }
    }
}

/// The names with one that is among them afterwards.
pub open spec fn registered(names: Seq<Seq<char>>, name: Seq<char>) -> Seq<Seq<char>> {
    if name_at(names, name) < names.len() {
        names
    } else {
        names.push(name)
    }
}

/// There is one client for each database: asking again for a database gives
/// the client that is there, and asking for another one does not change that.
pub proof fn lemma_one_client_per_database(
    names: Seq<Seq<char>>,
    name: Seq<char>,
    other: Seq<char>,
)
    ensures
        name_at(registered(names, name), name) == name_at(names, name),
        name_at(names, name) < names.len() ==> name_at(registered(names, other), name) == name_at(
            names,
            name,
        ),
        registered(registered(names, name), name) == registered(names, name),
        names.no_duplicates() ==> registered(names, name).no_duplicates(),
{
    lemma_name_at(names, name);
    let new = registered(names, name);
    let at = name_at(names, name) as int;
    assert forall|i: int| 0 <= i < at implies #[trigger] new[i] != name by {
        assert(new[i] == names[i]);
    }
    lemma_name_at_is(new, name, at);
    if at < names.len() {
        let two = registered(names, other);
        assert forall|i: int| 0 <= i < at implies #[trigger] two[i] != name by {
            assert(two[i] == names[i]);
        }
        assert(two[at] == names[at]);
        lemma_name_at_is(two, name, at);
    }
}

/// What the settings of a server's message say of a change, if it is one.
pub open spec fn change_in(msg: JsonView) -> Option<ChangeView> {
    match (
        str_field(msg, "category"@),
        str_field(msg, "event"@),
        str_field(msg, "collectionName"@),
    ) {
        (Some(category), Some(event), Some(collection_name)) => Some(
            ChangeView {
                category,
                collection_name,
                event,
                before: value_field(msg, "before"@),
                after: value_field(msg, "after"@),
            },
        ),
        _ => None,
    }
}

/// The text under a key.
pub open spec fn str_field(v: JsonView, key: Seq<char>) -> Option<Seq<char>> {
    match field(v, key) {
        Some(x) => str_of(x),
        None => None,
    }
}

/// The value under a key, if it is there and not null.
pub open spec fn value_field(v: JsonView, key: Seq<char>) -> Option<JsonView> {
    match field(v, key) {
        Some(JsonView::Null) => None,
        x => x,
    }
}

/// The text under a key that may be missing or null; `None` where something
/// else stands there.
pub open spec fn optional_text(v: JsonView, key: Seq<char>) -> Option<Option<Seq<char>>> {
    match value_field(v, key) {
        Some(x) => match str_of(x) {
            Some(s) => Some(Some(s)),
            None => None,
        },
        None => Some(None),
    }
}

/// What a response answers: a value, or an error.
pub open spec fn answer_of(
    success: bool,
    value: Option<JsonView>,
    message: Option<Seq<char>>,
) -> Result<JsonView, Seq<char>> {
    if success {
        Ok(
            match value {
                Some(v) => v,
                None => JsonView::Null,
            },
        )
    } else {
        Err(
            match message {
                Some(m) => m,
                None => "Action failed"@,
            },
        )
    }
}

/// What a message that comes in means.
pub enum IncomingView {
    Ignored,
    Changed(ChangeView),
    Answered(Result<JsonView, Seq<char>>),
}

/// What a message that comes in means: one of the kind `change` tells of a
/// change, another one with a `success` answers a request.
pub open spec fn incoming_of(msg: JsonView) -> IncomingView {
    let success = match field(msg, "success"@) {
        Some(v) => bool_of(v),
        None => None,
    };
    let response = optional_text(msg, "response_json"@);
    let message = optional_text(msg, "message"@);
    if str_field(msg, "kind"@) == Some("change"@) {
        match change_in(msg) {
            Some(c) => IncomingView::Changed(c),
            None => IncomingView::Ignored,
        }
    } else if success is Some && response is Some && message is Some {
        IncomingView::Answered(
            answer_of(
                success->0,
                match response->0 {
                    Some(s) => parsed(s),
                    None => None,
                },
                message->0,
            ),
        )
    } else {
        IncomingView::Ignored
    }
}

/// What a message that came in means.
#[derive(Debug)]
pub enum Incoming {
    Ignored,
    /// A change, of which the listeners are to hear.
    Changed { event: ChangeEvent },
    /// The answer to a request, if one waits for it.
    Answered { request: Option<u64>, payload: Result<Json, String> },
}

/// What is answered.
pub open spec fn payload_view(r: Result<Json, String>) -> Result<JsonView, Seq<char>> {
    match r {
        Ok(v) => Ok(v@),
        Err(e) => Err(e@),
    }
}

/// What a response answers.
pub fn answer(success: bool, value: Option<Json>, message: Option<String>) -> (r: Result<
    Json,
    String,
>)
    ensures
        payload_view(r) == answer_of(
            success,
            own_view(value),
            crate::object::string_view(message),
        ),
{
    if success {
        Ok(
            match value {
                Some(v) => v,
                None => Json::Null,
            },
        )
    } else {
        Err(
            match message {
                Some(m) => m,
                None => owned("Action failed"),
            },
        )
    }
}

fn get_str<'a>(v: &'a Json, key: &str) -> (r: Option<&'a str>)
    ensures
        crate::object::text_view(r) == str_field(v@, key@),
{
    match v.get(key) {
        Some(x) => x.as_str(),
        None => None,
    }
}

fn get_value<'a>(v: &'a Json, key: &str) -> (r: Option<&'a Json>)
    ensures
        crate::object::opt_view(r) == value_field(v@, key@),
{
    match v.get(key) {
        Some(Json::Null) => None,
        x => x,
    }
}

fn get_optional_text(v: &Json, key: &str) -> (r: Option<Option<String>>)
    ensures
        match r {
            Some(t) => optional_text(v@, key@) == Some(crate::object::string_view(t)),
            None => optional_text(v@, key@) is None,
        },
{
    match get_value(v, key) {
        Some(x) => match x.as_str() {
            Some(s) => Some(Some(owned(s))),
            None => None,
        },
        None => Some(None),
    }
}

/// Where the first of the waiting requests stands that still wants an answer.
pub open spec fn first_alive(pending: Seq<u64>, alive: Seq<u64>) -> nat
    decreases pending.len(),
{
    if pending.len() == 0 || alive.contains(pending[0]) {
        0
    } else {
        first_alive(pending.drop_first(), alive) + 1
    }
}

/// The requests that still wait after one was answered.
pub open spec fn settled(pending: Seq<u64>, alive: Seq<u64>) -> Seq<u64> {
    if first_alive(pending, alive) < pending.len() {
        pending.skip(first_alive(pending, alive) as int + 1)
    } else {
        Seq::empty()
    }
}

/// The request that an answer is for.
pub open spec fn settled_request(pending: Seq<u64>, alive: Seq<u64>) -> Option<u64> {
    if first_alive(pending, alive) < pending.len() {
        Some(pending[first_alive(pending, alive) as int])
    } else {
        None
    }
}

proof fn lemma_first_alive_is(pending: Seq<u64>, alive: Seq<u64>, at: int)
    requires
        0 <= at <= pending.len(),
        at < pending.len() ==> alive.contains(pending[at]),
        forall|i: int| 0 <= i < at ==> !alive.contains(#[trigger] pending[i]),
    ensures
        first_alive(pending, alive) == at,
    decreases at,
{
    if at > 0 {
        assert(!alive.contains(pending[0]));
        let rest = pending.drop_first();
        assert forall|i: int| 0 <= i < at - 1 implies !alive.contains(#[trigger] rest[i]) by {
            assert(rest[i] == pending[i + 1]);
        }
        lemma_first_alive_is(rest, alive, at - 1);
    }
}

/// Answers come in the order of the requests: as long as the oldest waiting
/// request still wants one, the next answer is for it.
pub proof fn lemma_answers_in_order(pending: Seq<u64>, alive: Seq<u64>)
    requires
        pending.len() > 0,
        alive.contains(pending[0]),
    ensures
        settled_request(pending, alive) == Some(pending[0]),
        settled(pending, alive) == pending.drop_first(),
{
    assert(pending.skip(1) == pending.drop_first());
}

fn is_alive(alive: &Vec<u64>, id: u64) -> (r: bool)
    ensures
        r == alive@.contains(id),
{
    let mut i: usize = 0;
    while i < alive.len()
        invariant
            i <= alive@.len(),
            forall|j: int| 0 <= j < i ==> alive@[j] != id,
        decreases alive@.len() - i,
    {
        if alive[i] == id {
            return true;
        }
        i = i + 1;
    }
    false
}

/// What happens on the connection of a client.
#[derive(Debug)]
pub enum LinkEvent {
    /// The client starts, or has waited to connect again.
    Begin,
    /// The connection could not be made, or came to its end.
    Ended,
    /// The connection is there, and what waited for it has been sent.
    Opened,
    /// There is a message to send.
    Outgoing { message: Json },
    /// There will be no more messages to send.
    OutgoingClosed,
    /// A text has come in.
    Text { text: String },
    /// Something else has come in.
    Skipped,
    /// Some time has passed.
    Tick,
}

/// What to do on the connection of a client.
#[derive(Debug)]
pub enum LinkAction {
    /// Connect.
    Connect { url: String },
    /// Send a text.
    Send { text: String },
    /// Make something of a text.
    Dispatch { text: String },
    /// Wait for what happens next, be it to send or not.
    Poll { outgoing: bool },
    /// Refuse requests for a reason, and wait to connect again.
    Wait { rejected: Vec<u64>, reason: String },
    /// Refuse requests for a reason, and stop.
    Stop { rejected: Vec<u64>, reason: String, close: bool },
}

/// What to do on the connection of a client.
pub enum LinkActionView {
    Connect { url: Seq<char> },
    Send { text: Seq<char> },
    Dispatch { text: Seq<char> },
    Poll { outgoing: bool },
    Wait { rejected: Seq<u64>, reason: Seq<char> },
    Stop { rejected: Seq<u64>, reason: Seq<char>, close: bool },
}

impl View for LinkAction {
    type V = LinkActionView;

    open spec fn view(&self) -> LinkActionView {
        match self {
            LinkAction::Connect { url } => LinkActionView::Connect { url: url@ },
            LinkAction::Send { text } => LinkActionView::Send { text: text@ },
            LinkAction::Dispatch { text } => LinkActionView::Dispatch { text: text@ },
            LinkAction::Poll { outgoing } => LinkActionView::Poll { outgoing: *outgoing },
            LinkAction::Wait { rejected, reason } => LinkActionView::Wait {
                rejected: rejected@,
                reason: reason@,
            },
            LinkAction::Stop { rejected, reason, close } => LinkActionView::Stop {
                rejected: rejected@,
                reason: reason@,
                close: *close,
            },
        }
    }
}

/// What a client becomes by what happens on its connection, and what is to be
/// done.
pub open spec fn link_step(
    c: ClientView,
    event: LinkEvent,
    env: Seq<(Seq<char>, Seq<char>)>,
) -> (ClientView, LinkActionView) {
    let none = Seq::<u64>::empty();
    match event {
        LinkEvent::Begin => (
            c,
            if c.closed {
                LinkActionView::Stop { rejected: none, reason: "MicroserviceDBAPI closed"@, close: false }
            } else {
                LinkActionView::Connect { url: url_of(env) }
            },
        ),
        LinkEvent::Ended => (
            ClientView { ready: false, pending: none, ..c },
            if c.closed {
                LinkActionView::Stop {
                    rejected: c.pending,
                    reason: "WebSocket disconnected"@,
                    close: false,
                }
            } else {
                LinkActionView::Wait { rejected: c.pending, reason: "WebSocket disconnected"@ }
            },
        ),
        LinkEvent::Opened => (
            ClientView { ready: true, outgoing: true, ..c },
            LinkActionView::Poll { outgoing: true },
        ),
        LinkEvent::Outgoing { message } => (c, LinkActionView::Send { text: text_of(message@) }),
        LinkEvent::OutgoingClosed => (
            ClientView { outgoing: false, ..c },
            LinkActionView::Poll { outgoing: false },
        ),
        LinkEvent::Text { text } => (c, LinkActionView::Dispatch { text: text@ }),
        LinkEvent::Skipped => (c, LinkActionView::Poll { outgoing: c.outgoing }),
        LinkEvent::Tick => if c.closed {
            (
                ClientView { pending: none, ..c },
                LinkActionView::Stop {
                    rejected: c.pending,
                    reason: "MicroserviceDBAPI closed"@,
                    close: true,
                },
            )
        } else {
            (c, LinkActionView::Poll { outgoing: c.outgoing })
        },
    }
}

/// How a request came to its end.
#[derive(Debug)]
pub enum RequestEnd {
    Answered { payload: Result<Json, String> },
    Cancelled,
    TimedOut,
}

/// What a request comes to.
pub open spec fn request_result(end: RequestEnd) -> Result<JsonView, Seq<char>> {
    match end {
        RequestEnd::Answered { payload } => payload_view(payload),
        RequestEnd::Cancelled => Err("Request cancelled"@),
        RequestEnd::TimedOut => Err("Request timeout"@),
    }
}

/// What a request comes to.
pub fn finish_request(end: RequestEnd) -> (r: Result<Json, String>)
    ensures
        payload_view(r) == request_result(end),
{
    match end {
        RequestEnd::Answered { payload } => payload,
        RequestEnd::Cancelled => Err(owned("Request cancelled")),
        RequestEnd::TimedOut => Err(owned("Request timeout")),
    }
}

/// The error of an answer that does not have the shape that was expected.
pub fn invalid_shape(error: &str) -> (r: String)
    ensures
        r@ == "Invalid response shape: "@ + error@,
{
    cat("Invalid response shape: ", error)
}

/// What a client does about its connection before it sends a request.
#[derive(Debug)]
pub enum Readiness {
    Ready,
    Wait,
    Unavailable { error: String },
}

impl MicroserviceDBAPI {
    /// A client that has not connected yet.
    pub fn new(database_name: &str, collections: &Vec<String>) -> (r: MicroserviceDBAPI)
        ensures
            r@ == new_client(database_name@, texts(collections@)),
    {
        let pending: Vec<u64> = Vec::new();
        let listeners: Vec<u64> = Vec::new();
        let offline_queue: Vec<Json> = Vec::new();
        let find_cache: Vec<FindCacheEntry> = Vec::new();
        assert(views(offline_queue@) == Seq::<JsonView>::empty());
        assert(cache_views(find_cache@) == Seq::<EntryView>::empty());
        MicroserviceDBAPI {
            database_name: owned(database_name),
            precache_collections: drop_blank(collections),
            ready: false,
            closed: false,
            outgoing: true,
            pending,
            offline_queue,
            listeners,
            find_cache,
        }
    }

    /// The client for a database: where it stands among those that there are,
    /// and if there was none yet, a new one to put there.
    pub fn get_instance(registry: &mut Registry, database_name: &str, collections: &Vec<String>)
        -> (r: (usize, Option<MicroserviceDBAPI>))
        requires
            database_name@.len() > 0,
        ensures
            texts(final(registry).names@) == registered(texts(old(registry).names@), database_name@),
            r.0 == name_at(texts(old(registry).names@), database_name@),
            match r.1 {
                Some(c) => r.0 == old(registry).names@.len() && c@ == new_client(
                    database_name@,
                    texts(collections@),
                ),
                None => r.0 < old(registry).names@.len(),
            },
    {
        let ghost all = texts(registry.names@);
        let mut i: usize = 0;
        while i < registry.names.len()
            invariant
                i <= registry.names@.len(),
                all == texts(registry.names@),
                *registry == *old(registry),
                forall|j: int| 0 <= j < i ==> #[trigger] all[j] != database_name@,
            decreases registry.names@.len() - i,
        {
            if same_text(registry.names[i].as_str(), database_name) {
                proof {
                    lemma_name_at_is(all, database_name@, i as int);
                }
                return (i, None);
            }
            assert(all[i as int] != database_name@);
            i = i + 1;
        }
        proof {
            lemma_name_at_is(all, database_name@, i as int);
        }
        registry.names.push(owned(database_name));
        assert(texts(registry.names@) == all.push(database_name@));
        (i, Some(MicroserviceDBAPI::new(database_name, collections)))
    }

    /// Adds collections to those that the server is asked to have at hand, each
    /// once.
    pub fn add_collections(&mut self, collections: &Vec<String>)
        ensures
            final(self)@ == (ClientView {
                precache: if collections@.len() == 0 {
                    old(self)@.precache
                } else {
                    joined_names(
                        joined_names(Seq::empty(), old(self)@.precache),
                        texts(collections@),
                    )
                },
                ..old(self)@
            }),
    {
        if collections.len() > 0 {
            let none: Vec<String> = Vec::new();
            assert(texts(none@) == Seq::<Seq<char>>::empty());
            let once = join_names(none, &self.precache_collections);
            self.precache_collections = join_names(once, collections);
        }
    }

    /// The request that a new connection starts with, if collections are to be
    /// had at hand.
    pub fn precache_request(&self) -> (r: Option<Json>)
        ensures
            match r {
                Some(v) => self@.precache.len() > 0 && v@ == precache_message(
                    self@.database_name,
                    self@.precache,
                ),
                None => self@.precache.len() == 0,
            },
    {
        if self.precache_collections.len() == 0 {
            return None;
        }
        let mut o = no_entries();
        put(&mut o, "type", text_value("precache"));
        put(&mut o, "database_name", text_value(self.database_name.as_str()));
        put(&mut o, "collections", text_array_value(&self.precache_collections));
        let r = Json::Object(o);
        assert(r@->Object_0 == seq![
            ("type"@, JsonView::String("precache"@)),
            ("database_name"@, JsonView::String(self@.database_name)),
            (
                "collections"@,
                text_array(self@.precache),
            ),
        ]);
        Some(r)
    }

    /// Takes the messages that waited for a connection, oldest first.
    pub fn take_offline(&mut self) -> (r: Vec<Json>)
        ensures
            views(r@) == old(self)@.offline,
            final(self)@ == (ClientView { offline: Seq::empty(), ..old(self)@ }),
    {
        let mut none: Vec<Json> = Vec::new();
        assert(views(none@) == Seq::<JsonView>::empty());
        std::mem::swap(&mut none, &mut self.offline_queue);
        none
    }

    /// Whether a request can be sent, is to wait, or has waited long enough.
    pub fn ensure_ready(&self, checks: u32) -> (r: Readiness)
        ensures
            checks >= READY_CHECKS <==> r is Unavailable,
            r matches Readiness::Unavailable { error } ==> error@ == "WebSocket not available"@,
            checks < READY_CHECKS ==> (r is Ready <==> self@.ready),
    {
        if checks >= READY_CHECKS {
            Readiness::Unavailable { error: owned("WebSocket not available") }
        } else if self.ready {
            Readiness::Ready
        } else {
            Readiness::Wait
        }
    }

    /// Sends a message: it is handed back where there is a connection, and
    /// waits for one otherwise.
    pub fn send(&mut self, message: Json) -> (r: Option<Json>)
        ensures
            own_view(r) == (if old(self)@.ready {
                Some(message@)
            } else {
                None
            }),
            final(self)@ == (if old(self)@.ready {
                old(self)@
            } else {
                ClientView { offline: old(self)@.offline.push(message@), ..old(self)@ }
            }),
    {
        if self.ready {
            Some(message)
        } else {
            let ghost before = views(self.offline_queue@);
            let ghost m = message@;
            self.offline_queue.push(message);
            assert(views(self.offline_queue@) == before.push(m));
            None
        }
    }

    /// Sends a request, which then waits for its answer.
    pub fn submit(&mut self, request: u64, message: Json) -> (r: Option<Json>)
        ensures
            own_view(r) == (if old(self)@.ready {
                Some(message@)
            } else {
                None
            }),
            final(self)@ == submitted(old(self)@, request, message@),
    {
        self.pending.push(request);
        self.send(message)
    }

    /// Takes the request that the next answer is for: the first that still
    /// wants one.  Those before it are given up.
    pub fn settle(&mut self, alive: &Vec<u64>) -> (r: Option<u64>)
        ensures
            r == settled_request(old(self)@.pending, alive@),
            final(self)@ == (ClientView {
                pending: settled(old(self)@.pending, alive@),
                ..old(self)@
            }),
    {
        let ghost all = self.pending@;
        let mut at: usize = 0;
        while at < self.pending.len() && !is_alive(alive, self.pending[at])
            invariant
                at <= self.pending@.len(),
                self.pending@ == all,
                *self == *old(self),
                forall|i: int| 0 <= i < at ==> !alive@.contains(#[trigger] all[i]),
            decreases self.pending@.len() - at,
        {
            at = at + 1;
        }
        proof {
            lemma_first_alive_is(all, alive@, at as int);
        }
        let mut rest: Vec<u64> = Vec::new();
        if at < self.pending.len() {
            let request = self.pending[at];
            let mut i: usize = at + 1;
            while i < self.pending.len()
                invariant
                    at < i <= self.pending@.len(),
                    self.pending@ == all,
                    *self == *old(self),
                    rest@ == all.subrange(at + 1, i as int),
                decreases self.pending@.len() - i,
            {
                rest.push(self.pending[i]);
                i = i + 1;
            }
            assert(rest@ == all.skip(at + 1));
            self.pending = rest;
            Some(request)
        } else {
            self.pending = rest;
            None
        }
    }

    /// Takes all requests that wait for an answer, to refuse them.
    pub fn reject_all_pending(&mut self) -> (r: Vec<u64>)
        ensures
            r@ == old(self)@.pending,
            final(self)@ == (ClientView { pending: Seq::empty(), ..old(self)@ }),
    {
        let mut none: Vec<u64> = Vec::new();
        std::mem::swap(&mut none, &mut self.pending);
        none
    }

    /// Makes something of a message that came in.  `alive` holds the requests
    /// that still want an answer.
    pub fn dispatch_message(&mut self, msg: &Json, alive: &Vec<u64>) -> (r: Incoming)
        ensures
            match incoming_of(msg@) {
                IncomingView::Ignored => r is Ignored && final(self)@ == old(self)@,
                IncomingView::Changed(c) => (r matches Incoming::Changed { event } && event@ == c)
                    && final(self)@ == (ClientView {
                    cache: after_change(old(self)@.cache, c),
                    ..old(self)@
                }),
                IncomingView::Answered(p) => (r matches Incoming::Answered { request, payload }
                    && request == settled_request(old(self)@.pending, alive@) && payload_view(
                    payload,
                ) == p) && final(self)@ == (ClientView {
                    pending: settled(old(self)@.pending, alive@),
                    ..old(self)@
                }),
            },
    {
        if let Some(kind) = get_str(msg, "kind") {
            if same_text(kind, "change") {
                return match (
                    get_str(msg, "category"),
                    get_str(msg, "event"),
                    get_str(msg, "collectionName"),
                ) {
                    (Some(category), Some(event), Some(collection_name)) => {
                        let event = ChangeEvent {
                            category: owned(category),
                            collection_name: owned(collection_name),
                            event: owned(event),
                            before: cloned_json(get_value(msg, "before")),
                            after: cloned_json(get_value(msg, "after")),
                        };
                        update_find_caches_from_change(&mut self.find_cache, &event);
                        Incoming::Changed { event }
                    },
                    _ => Incoming::Ignored,
                };
            }
        }
        let success = match msg.get("success") {
            Some(v) => v.as_bool(),
            None => None,
        };
        match (
            success,
            get_optional_text(msg, "response_json"),
            get_optional_text(msg, "message"),
        ) {
            (Some(success), Some(response), Some(message)) => {
                let value = match &response {
                    Some(s) => from_text(s.as_str()),
                    None => None,
                };
                let payload = answer(success, value, message);
                Incoming::Answered { request: self.settle(alive), payload }
            },
            _ => Incoming::Ignored,
        }
    }

    /// Makes something of a text that came in.
    pub fn dispatch_incoming(&mut self, text: &str, alive: &Vec<u64>) -> (r: Incoming)
        ensures
            match parsed(text@) {
                Some(msg) => match incoming_of(msg) {
                    IncomingView::Ignored => r is Ignored && final(self)@ == old(self)@,
                    IncomingView::Changed(c) => (r matches Incoming::Changed { event } && event@
                        == c) && final(self)@ == (ClientView {
                        cache: after_change(old(self)@.cache, c),
                        ..old(self)@
                    }),
                    IncomingView::Answered(p) => (r matches Incoming::Answered { request, payload }
                        && request == settled_request(old(self)@.pending, alive@) && payload_view(
                        payload,
                    ) == p) && final(self)@ == (ClientView {
                        pending: settled(old(self)@.pending, alive@),
                        ..old(self)@
                    }),
                },
                None => r is Ignored && final(self)@ == old(self)@,
            },
    {
        match from_text(text) {
            Some(msg) => self.dispatch_message(&msg, alive),
            None => Incoming::Ignored,
        }
    }

    /// What a client does about what happens on its connection.
    pub fn supervise(&mut self, event: LinkEvent, env: &Vec<(String, String)>) -> (r: LinkAction)
        ensures
            (final(self)@, r@) == link_step(old(self)@, event, setting_views(env@)),
    {
        let ghost e = event;
        match event {
            LinkEvent::Begin => if self.closed {
                LinkAction::Stop {
                    rejected: Vec::new(),
                    reason: owned("MicroserviceDBAPI closed"),
                    close: false,
                }
            } else {
                LinkAction::Connect { url: resolve_ws_url(env) }
            },
            LinkEvent::Ended => {
                self.ready = false;
                let rejected = self.reject_all_pending();
                let reason = owned("WebSocket disconnected");
                if self.closed {
                    LinkAction::Stop { rejected, reason, close: false }
                } else {
                    LinkAction::Wait { rejected, reason }
                }
            },
            LinkEvent::Opened => {
                self.ready = true;
                self.outgoing = true;
                LinkAction::Poll { outgoing: true }
            },
            LinkEvent::Outgoing { message } => LinkAction::Send { text: to_text(&message) },
            LinkEvent::OutgoingClosed => {
                self.outgoing = false;
                LinkAction::Poll { outgoing: false }
            },
            LinkEvent::Text { text } => LinkAction::Dispatch { text },
            LinkEvent::Skipped => LinkAction::Poll { outgoing: self.outgoing },
            LinkEvent::Tick => if self.closed {
                let rejected = self.reject_all_pending();
                LinkAction::Stop { rejected, reason: owned("MicroserviceDBAPI closed"), close: true }
            } else {
                LinkAction::Poll { outgoing: self.outgoing }
            },
        }
    }

    fn apply_change(
        &mut self,
        collection_name: &str,
        event: &str,
        before: Option<Json>,
        after: Option<Json>,
    ) -> (r: ChangeEvent)
        ensures
            r@ == own_change(collection_name@, event@, own_view(before), own_view(after)),
            final(self)@ == (ClientView {
                cache: after_change(old(self)@.cache, r@),
                ..old(self)@
            }),
    {
        let change = ChangeEvent {
            category: owned("collection"),
            collection_name: owned(collection_name),
            event: owned(event),
            before,
            after,
        };
        update_find_caches_from_change(&mut self.find_cache, &change);
        change
    }

    /// The request to insert a document.
    pub fn insert_one(&self, collection_name: &str, document: &Json) -> (r: Json)
        ensures
            r@ == insert_message(self@.database_name, collection_name@, document@),
    {
        let mut o = target_entries(self.database_name.as_str(), collection_name);
        put(&mut o, "document", document.clone());
        action("insertOne", o)
    }

    /// Takes note that a document was inserted.  The change is for the
    /// listeners.
    pub fn inserted(&mut self, collection_name: &str, document: &Json, result: &InsertResult) -> (r:
        ChangeEvent)
        ensures
            r@ == insert_change(collection_name@, document@, own_view(result.inserted_id)),
            final(self)@ == (ClientView {
                cache: after_change(old(self)@.cache, r@),
                ..old(self)@
            }),
    {
        let next = add_id(document, &result.inserted_id);
        self.apply_change(collection_name, "insertOne", None, Some(next))
    }

    /// The request for one document.
    pub fn find_one(&self, collection_name: &str, query: &Json) -> (r: Json)
        ensures
            r@ == find_one_message(self@.database_name, collection_name@, query@),
    {
        let mut o = target_entries(self.database_name.as_str(), collection_name);
        put(&mut o, "filter", query.clone());
        action("findOne", o)
    }

    /// The document that a request for one was answered with.
    pub fn found_one(value: Json) -> (r: Option<Json>)
        ensures
            own_view(r) == (if value@ == JsonView::Null {
                None
            } else {
                Some(value@)
            }),
    {
        match value {
            Json::Null => None,
            v => Some(v),
        }
    }

    /// The request for documents.
    pub fn find(
        &self,
        collection_name: &str,
        query: &Option<Json>,
        options: &Option<FindOptions>,
    ) -> (r: Json)
        ensures
            r@ == find_message(
                self@.database_name,
                collection_name@,
                or_object(own_view(*query)),
                or_default(*options),
            ),
    {
        let options = options_or_default(options);
        let mut o = target_entries(self.database_name.as_str(), collection_name);
        put(&mut o, "filter", or_empty_object(query));
        assert(entry_views(o@) == target(self@.database_name, collection_name@) + seq![
            ("filter"@, or_object(own_view(*query))),
        ]);
        put_weights(&mut o, "sort", &options.sort);
        put_weights(&mut o, "projection", &options.projection);
        put_number(&mut o, "limit", options.limit);
        put_number(&mut o, "skip", options.skip);
        action("find", o)
    }

    /// Takes note of the documents that a request was answered with, and keeps
    /// them.
    pub fn found(
        &mut self,
        collection_name: &str,
        query: &Option<Json>,
        options: &Option<FindOptions>,
        value: Json,
    ) -> (r: Option<Vec<Json>>)
        ensures
            value@ is Null ==> r is None && final(self)@ == old(self)@,
            value@ !is Null ==> {
                let rows = rows_of(value@);
                &&& r matches Some(v) && views(v@) == rows
                &&& final(self)@ == (ClientView {
                    cache: keeping(
                        old(self)@.cache,
                        found_entry(
                            collection_name@,
                            or_object(own_view(*query)),
                            or_default(*options),
                            rows,
                        ),
                    ),
                    ..old(self)@
                })
            },
    {
        let ghost given = value@;
        let rows = match value {
            Json::Null => {
                return None;
            },
            Json::Array(v) => v,
            v => {
                let mut one: Vec<Json> = Vec::new();
                one.push(v);
                one
            },
        };
        assert(views(rows@) == rows_of(given));
        let query = or_empty_object(query);
        let options = options_or_default(options);
        let key = build_find_cache_key(collection_name, &query, &options);
        let result = copy_list(&rows);
        keep_result(
            &mut self.find_cache,
            FindCacheEntry { key, collection_name: owned(collection_name), query, options, result },
        );
        Some(rows)
    }

    /// The request to write documents to a collection.
    pub fn update_collection(&self, collection_name: &str, data: &Json) -> (r: Json)
        ensures
            r@ == write_message(self@.database_name, collection_name@, data@),
    {
        let mut o = target_entries(self.database_name.as_str(), collection_name);
        put(&mut o, "data", data.clone());
        action("updateCollection", o)
    }

    /// The request to update a document.
    pub fn update_one(
        &self,
        collection_name: &str,
        filter: &Json,
        update: &Json,
        options: &Option<Json>,
    ) -> (r: Json)
        ensures
            r@ == update_message(
                self@.database_name,
                collection_name@,
                filter@,
                update@,
                or_object(own_view(*options)),
            ),
    {
        let mut o = target_entries(self.database_name.as_str(), collection_name);
        put(&mut o, "filter", filter.clone());
        put(&mut o, "update", update.clone());
        put(&mut o, "options", or_empty_object(options));
        action("updateOne", o)
    }

    /// Takes note that a document was updated: what is kept of its collection
    /// is dropped, if anything changed.
    pub fn updated(&mut self, collection_name: &str, result: &UpdateResult)
        ensures
            final(self)@ == (ClientView {
                cache: kept_after_update(
                    old(self)@.cache,
                    collection_name@,
                    result.modified_count as int,
                    result.upserted_count as int,
                ),
                ..old(self)@
            }),
    {
        if result.modified_count > 0 || result.upserted_count > 0 {
            clear_find_caches_for_collection(&mut self.find_cache, collection_name);
        }
    }

    /// The request to replace a document.
    pub fn replace_one(
        &self,
        collection_name: &str,
        filter: &Json,
        replacement: &Json,
        options: &Option<Json>,
    ) -> (r: Json)
        ensures
            r@ == replace_message(
                self@.database_name,
                collection_name@,
                filter@,
                replacement@,
                or_object(own_view(*options)),
            ),
    {
        let mut o = target_entries(self.database_name.as_str(), collection_name);
        put(&mut o, "filter", filter.clone());
        put(&mut o, "replacement", replacement.clone());
        put(&mut o, "options", or_empty_object(options));
        action("replaceOne", o)
    }

    /// Takes note that a document was replaced.  The change, if there was one,
    /// is for the listeners.
    pub fn replaced(
        &mut self,
        collection_name: &str,
        filter: &Json,
        replacement: &Json,
        result: &UpdateResult,
    ) -> (r: Option<ChangeEvent>)
        ensures
            match replace_change(
                collection_name@,
                filter@,
                replacement@,
                result.modified_count as int,
                result.upserted_count as int,
                own_view(result.upserted_id),
            ) {
                Some(change) => (r matches Some(c) && c@ == change) && final(self)@ == (ClientView {
                    cache: after_change(old(self)@.cache, change),
                    ..old(self)@
                }),
                None => r is None && final(self)@ == old(self)@,
            },
    {
        if result.modified_count > 0 || result.upserted_count > 0 {
            let id = filter_id(filter);
            let after = if id.is_some() {
                add_id(replacement, &id)
            } else {
                add_id(replacement, &result.upserted_id)
            };
            let before = only_id(&id);
            Some(self.apply_change(collection_name, "replaceOne", before, Some(after)))
        } else {
            None
        }
    }

    /// The request to delete a document.
    pub fn delete_one(&self, collection_name: &str, filter: &Json) -> (r: Json)
        ensures
            r@ == delete_message(self@.database_name, collection_name@, filter@),
    {
        let mut o = target_entries(self.database_name.as_str(), collection_name);
        put(&mut o, "filter", filter.clone());
        action("deleteOne", o)
    }

    /// Takes note that a document was deleted.  The change, if there was one,
    /// is for the listeners.
    pub fn deleted(&mut self, collection_name: &str, filter: &Json, result: &DeleteResult) -> (r:
        Option<ChangeEvent>)
        ensures
            match delete_change(collection_name@, filter@, result.deleted_count as int) {
                Some(change) => (r matches Some(c) && c@ == change) && final(self)@ == (ClientView {
                    cache: after_change(old(self)@.cache, change),
                    ..old(self)@
                }),
                None => r is None && final(self)@ == old(self)@,
            },
    {
        if result.deleted_count > 0 {
            let before = only_id(&filter_id(filter));
            Some(self.apply_change(collection_name, "deleteOne", before, None))
        } else {
            None
        }
    }

    /// The request for what the server tells of itself.
    pub fn get_metadata(&self) -> (r: Json)
        ensures
            r@ == metadata_message(self@.database_name),
    {
        let mut o = no_entries();
        put(&mut o, "type", text_value("metadata"));
        put(&mut o, "database_name", text_value(self.database_name.as_str()));
        let r = Json::Object(o);
        assert(r@->Object_0 == seq![
            ("type"@, JsonView::String("metadata"@)),
            ("database_name"@, JsonView::String(self@.database_name)),
        ]);
        r
    }

    /// What the server told of itself; null where it told nothing.
    pub fn metadata(answer: Result<Json, String>) -> (r: Json)
        ensures
            r@ == match payload_view(answer) {
                Ok(v) => v,
                Err(_) => JsonView::Null,
            },
    {
        match answer {
            Ok(v) => v,
            Err(_) => Json::Null,
        }
    }

    /// Adds a listener.
    pub fn subscribe(&mut self, listener: u64)
        ensures
            final(self)@ == (ClientView {
                listeners: old(self)@.listeners.push(listener),
                ..old(self)@
            }),
    {
        self.listeners.push(listener);
    }

    /// Takes a listener back, and tells whether it was there.
    pub fn unsubscribe(&mut self, listener: u64) -> (r: bool)
        ensures
            r == old(self)@.listeners.contains(listener),
            final(self)@ == (ClientView {
                listeners: without_listener(old(self)@.listeners, listener),
                ..old(self)@
            }),
    {
        let ghost all = self.listeners@;
        let mut i: usize = self.listeners.len();
        while i > 0
            invariant
                i <= all.len(),
                self.listeners@ == all,
                self@ == old(self)@,
                old(self)@.listeners == all,
                forall|j: int| i <= j < all.len() ==> all[j] != listener,
            decreases i,
        {
            i = i - 1;
            if self.listeners[i] == listener {
                proof {
                    lemma_without_listener(all, listener, i as int);
                }
                self.listeners.remove(i);
                return true;
            }
        }
        proof {
            lemma_without_unknown_listener(all, listener);
        }
        false
    }

    /// The documents that a query gave when it was last asked, with the changes
    /// since then.
    pub fn get_cached_find(
        &self,
        collection_name: &str,
        query: &Option<Json>,
        options: &Option<FindOptions>,
    ) -> (r: Option<Vec<Json>>)
        ensures
            match r {
                Some(v) => kept(
                    self@.cache,
                    find_key(collection_name@, or_object(own_view(*query)), or_default(*options)),
                ) == Some(views(v@)),
                None => kept(
                    self@.cache,
                    find_key(collection_name@, or_object(own_view(*query)), or_default(*options)),
                ) is None,
            },
    {
        let query = or_empty_object(query);
        let options = options_or_default(options);
        let key = build_find_cache_key(collection_name, &query, &options);
        kept_result(&self.find_cache, key.as_str())
    }

    /// Closes the client: it keeps nothing, and the requests that wait for an
    /// answer are to be refused.
    pub fn close(&mut self) -> (r: (Vec<u64>, String))
        ensures
            r.0@ == old(self)@.pending,
            r.1@ == "MicroserviceDBAPI closed"@,
            final(self)@ == closed_client(old(self)@),
    {
        self.closed = true;
        self.ready = false;
        let rejected = self.reject_all_pending();
        self.find_cache = Vec::new();
        assert(cache_views(self.find_cache@) == Seq::<EntryView>::empty());
        (rejected, owned("MicroserviceDBAPI closed"))
    }
}

/// The documents in an answer: those of a list, or the one that it is.
pub open spec fn rows_of(value: JsonView) -> Seq<JsonView> {
    match value {
        JsonView::Array(a) => a,
        v => seq![v],
    }
}

/// What is kept of the answer to a query.
pub open spec fn found_entry(
    collection: Seq<char>,
    query: JsonView,
    options: OptionsView,
    rows: Seq<JsonView>,
) -> EntryView {
    EntryView {
        key: find_key(collection, query, options),
        collection_name: collection,
        query,
        options,
        result: rows,
    }
}

/// No two results are kept under one name, and no empty name is asked for.
pub open spec fn consistent(c: ClientView) -> bool {
    &&& distinct_names(c.cache)
    &&& forall|i: int| 0 <= i < c.precache.len() ==> (#[trigger] c.precache[i]).len() > 0
}

proof fn lemma_refreshed_names(cache: Seq<EntryView>, change: ChangeView)
    ensures
        forall|i: int|
            0 <= i < refreshed_all(cache, change).len() ==> exists|j: int|
                0 <= j < cache.len() && #[trigger] cache[j].key == (#[trigger] refreshed_all(
                    cache,
                    change,
                )[i]).key,
        distinct_names(cache) ==> distinct_names(refreshed_all(cache, change)),
    decreases cache.len(),
{
    if cache.len() > 0 {
        let init = cache.drop_last();
        lemma_refreshed_names(init, change);
        let head = refreshed_all(init, change);
        let all = refreshed_all(cache, change);
        assert forall|i: int| 0 <= i < all.len() implies exists|j: int|
            0 <= j < cache.len() && #[trigger] cache[j].key == (#[trigger] all[i]).key by {
            if i < head.len() {
                assert(all[i] == head[i]);
                let j = choose|j: int| 0 <= j < init.len() && #[trigger] init[j].key == head[i].key;
                assert(cache[j] == init[j]);
            } else {
                assert(cache[cache.len() - 1].key == all[i].key);
            }
        }
        if distinct_names(cache) {
            assert forall|i: int, j: int| 0 <= i < j < init.len() implies #[trigger] init[i].key
                != #[trigger] init[j].key by {
                assert(init[i] == cache[i] && init[j] == cache[j]);
            }
            assert forall|i: int, j: int| 0 <= i < j < all.len() implies #[trigger] all[i].key
                != #[trigger] all[j].key by {
                assert(all[i] == head[i]);
                if j < head.len() {
                    assert(all[j] == head[j]);
                } else {
                    let k = choose|k: int|
                        0 <= k < init.len() && #[trigger] init[k].key == head[i].key;
                    assert(cache[k] == init[k]);
                    assert(all[j].key == cache[cache.len() - 1].key);
                }
            }
        }
    }
}

proof fn lemma_without_names(cache: Seq<EntryView>, collection: Seq<char>)
    ensures
        forall|i: int|
            0 <= i < without_collection(cache, collection).len() ==> exists|j: int|
                0 <= j < cache.len() && #[trigger] cache[j] == #[trigger] without_collection(
                    cache,
                    collection,
                )[i],
        distinct_names(cache) ==> distinct_names(without_collection(cache, collection)),
        forall|i: int|
            0 <= i < without_collection(cache, collection).len() ==> (
            #[trigger] without_collection(cache, collection)[i]).collection_name != collection,
    decreases cache.len(),
{
    if cache.len() > 0 {
        let init = cache.drop_last();
        lemma_without_names(init, collection);
        let head = without_collection(init, collection);
        let all = without_collection(cache, collection);
        assert forall|i: int| 0 <= i < all.len() implies exists|j: int|
            0 <= j < cache.len() && #[trigger] cache[j] == #[trigger] all[i] by {
            if i < head.len() {
                assert(all[i] == head[i]);
                let j = choose|j: int| 0 <= j < init.len() && #[trigger] init[j] == head[i];
                assert(cache[j] == init[j]);
            } else {
                assert(cache[cache.len() - 1] == all[i]);
            }
        }
        if distinct_names(cache) {
            assert forall|i: int, j: int| 0 <= i < j < init.len() implies #[trigger] init[i].key
                != #[trigger] init[j].key by {
                assert(init[i] == cache[i] && init[j] == cache[j]);
            }
            assert forall|i: int, j: int| 0 <= i < j < all.len() implies #[trigger] all[i].key
                != #[trigger] all[j].key by {
                assert(all[i] == head[i]);
                if j < head.len() {
                    assert(all[j] == head[j]);
                } else {
                    let k = choose|k: int| 0 <= k < init.len() && #[trigger] init[k] == head[i];
                    assert(cache[k] == init[k]);
                    assert(all[j].key == cache[cache.len() - 1].key);
                }
            }
        }
    }
}

proof fn lemma_joined_nonempty(names: Seq<Seq<char>>, more: Seq<Seq<char>>)
    requires
        forall|i: int| 0 <= i < names.len() ==> (#[trigger] names[i]).len() > 0,
    ensures
        forall|i: int|
            0 <= i < joined_names(names, more).len() ==> (#[trigger] joined_names(
                names,
                more,
            )[i]).len() > 0,
    decreases more.len(),
{
    if more.len() > 0 {
        lemma_joined_nonempty(names, more.drop_last());
        let head = joined_names(names, more.drop_last());
        let all = joined_names(names, more);
        assert forall|i: int| 0 <= i < all.len() implies (#[trigger] all[i]).len() > 0 by {
            if i < head.len() {
                assert(all[i] == head[i]);
            }
        }
    }
}

proof fn lemma_nonempty_names(names: Seq<Seq<char>>)
    ensures
        forall|i: int|
            0 <= i < nonempty_names(names).len() ==> (#[trigger] nonempty_names(names)[i]).len() > 0,
    decreases names.len(),
{
    if names.len() > 0 {
        lemma_nonempty_names(names.drop_last());
        let head = nonempty_names(names.drop_last());
        let all = nonempty_names(names);
        assert forall|i: int| 0 <= i < all.len() implies (#[trigger] all[i]).len() > 0 by {
            if i < head.len() {
                assert(all[i] == head[i]);
            }
        }
    }
}

/// Whatever a client does, it keeps no two results under one name, and asks for
/// no collection without a name.
pub proof fn lemma_client_stays_consistent(
    c: ClientView,
    change: ChangeView,
    entry: EntryView,
    collection: Seq<char>,
    db: Seq<char>,
    collections: Seq<Seq<char>>,
)
    requires
        consistent(c),
    ensures
        consistent(new_client(db, collections)),
        consistent((ClientView { cache: after_change(c.cache, change), ..c })),
        consistent((ClientView { cache: keeping(c.cache, entry), ..c })),
        consistent((ClientView { cache: without_collection(c.cache, collection), ..c })),
        consistent((ClientView { cache: Seq::empty(), ..c })),
        consistent(
            (ClientView {
                precache: joined_names(joined_names(Seq::empty(), c.precache), collections),
                ..c
            }),
        ),
{
    lemma_refreshed_names(c.cache, change);
    lemma_without_names(c.cache, collection);
    lemma_kept_reads_back(c.cache, entry, entry.key);
    lemma_nonempty_names(collections);
    lemma_joined_nonempty(Seq::empty(), c.precache);
    lemma_joined_nonempty(joined_names(Seq::empty(), c.precache), collections);
}

/// What a query gave is had from what is kept, until a change to its collection
/// was made through this client or told by the server.
pub proof fn lemma_found_is_cached(
    c: ClientView,
    collection: Seq<char>,
    query: JsonView,
    options: OptionsView,
    rows: Seq<JsonView>,
)
    ensures
        kept(
            keeping(c.cache, found_entry(collection, query, options, rows)),
            find_key(collection, query, options),
        ) == Some(rows),
{
    lemma_kept_reads_back(
        c.cache,
        found_entry(collection, query, options, rows),
        find_key(collection, query, options),
    );
}

/// After an update that changed something, nothing is kept of its collection.
pub proof fn lemma_update_drops_kept(cache: Seq<EntryView>, collection: Seq<char>)
    ensures
        forall|i: int|
            0 <= i < without_collection(cache, collection).len() ==> (
            #[trigger] without_collection(cache, collection)[i]).collection_name != collection,
{
    lemma_without_names(cache, collection);
}

/// A client that has been closed connects no more: whatever happens on its
/// connection, it is never told to connect or to wait for it, and with the next
/// look at the time, or when its connection ends, it stops and every waiting
/// request is refused.
pub proof fn lemma_closed_client_stops(
    c: ClientView,
    event: LinkEvent,
    env: Seq<(Seq<char>, Seq<char>)>,
)
    requires
        c.closed,
    ensures
        link_step(c, event, env).0.closed,
        link_step(c, event, env).1 !is Connect,
        link_step(c, event, env).1 !is Wait,
        event is Tick || event is Ended ==> link_step(c, event, env).1 is Stop && link_step(
            c,
            event,
            env,
        ).1->Stop_rejected == c.pending && link_step(c, event, env).0.pending.len() == 0,
{
}

/// When a connection ends, no request waits any longer for an answer that
/// cannot come: all are refused, and the client is not ready.
pub proof fn lemma_lost_connection_refuses(c: ClientView, env: Seq<(Seq<char>, Seq<char>)>)
    ensures
        link_step(c, LinkEvent::Ended, env).0.pending.len() == 0,
        !link_step(c, LinkEvent::Ended, env).0.ready,
        !c.closed ==> link_step(c, LinkEvent::Ended, env).1 == (LinkActionView::Wait {
            rejected: c.pending,
            reason: "WebSocket disconnected"@,
        }),
{
}

} // verus!
