//! The results of queries that a client keeps, and how changes reach them.

use crate::json::{entry_views, views, Json, JsonView, Numeral};
use crate::object::{lookup, own_view, set_entry, string_view, text_value, with_key};
use crate::request::{no_entries, put};
use crate::text::same_text;
use crate::wire::{text_of, to_text};
use vstd::prelude::*;

verus! {

broadcast use crate::json::group_json_views;

/// How the result of a query is ordered, projected and cut.
#[derive(Debug)]
pub struct FindOptions {
    pub sort: Option<Vec<(String, i32)>>,
    pub projection: Option<Vec<(String, i32)>>,
    pub limit: Option<i64>,
    pub skip: Option<i64>,
}

/// Weights by name.
pub open spec fn weight_views(v: Seq<(String, i32)>) -> Seq<(Seq<char>, i32)> {
    v.map_values(|e: (String, i32)| (e.0@, e.1))
}

/// Weights by name, if there are any.
pub open spec fn opt_weights(v: Option<Vec<(String, i32)>>) -> Option<Seq<(Seq<char>, i32)>> {
    match v {
        Some(w) => Some(weight_views(w@)),
        None => None,
    }
}

/// What the options of a query are.
#[verifier::ext_equal]
pub struct OptionsView {
    pub sort: Option<Seq<(Seq<char>, i32)>>,
    pub projection: Option<Seq<(Seq<char>, i32)>>,
    pub limit: Option<i64>,
    pub skip: Option<i64>,
}

impl View for FindOptions {
    type V = OptionsView;

    open spec fn view(&self) -> OptionsView {
        OptionsView {
            sort: opt_weights(self.sort),
            projection: opt_weights(self.projection),
            limit: self.limit,
            skip: self.skip,
        }
    }
}

/// The options of a query that asks for nothing in particular.
pub open spec fn no_options() -> OptionsView {
    OptionsView { sort: None, projection: None, limit: None, skip: None }
}

impl Default for FindOptions {
    fn default() -> (r: FindOptions)
        ensures
            r@ == no_options(),
    {
        FindOptions { sort: None, projection: None, limit: None, skip: None }
    }
}

fn copy_weights(v: &Option<Vec<(String, i32)>>) -> (r: Option<Vec<(String, i32)>>)
    ensures
        opt_weights(r) == opt_weights(*v),
{
    match v {
        Some(w) => {
            let ghost all = weight_views(w@);
            let mut out: Vec<(String, i32)> = Vec::new();
            let mut i: usize = 0;
            assert(weight_views(out@) == all.take(0));
            while i < w.len()
                invariant
                    i <= w@.len(),
                    all == weight_views(w@),
                    weight_views(out@) == all.take(i as int),
                decreases w@.len() - i,
            {
                let ghost before = weight_views(out@);
                out.push((w[i].0.clone(), w[i].1));
                assert(weight_views(out@) == before.push(all[i as int]));
                assert(all.take(i + 1) == all.take(i as int).push(all[i as int]));
                i = i + 1;
            }
            assert(all.take(i as int) == all);
            Some(out)
        },
        None => None,
    }
}

impl Clone for FindOptions {
    fn clone(&self) -> (r: FindOptions)
        ensures
            r@ == self@,
    {
        FindOptions {
            sort: copy_weights(&self.sort),
            projection: copy_weights(&self.projection),
            limit: self.limit,
            skip: self.skip,
        }
    }
}

/// An integer as a JSON value.
pub open spec fn int_json(i: int) -> JsonView {
    if i >= 0 {
        JsonView::Number(Numeral::PosInt(i as u64))
    } else {
        JsonView::Number(Numeral::NegInt(i as i64))
    }
}

pub fn int_value(i: i64) -> (r: Json)
    ensures
        r@ == int_json(i as int),
{
    if i >= 0 {
        Json::Number(Numeral::PosInt(i as u64))
    } else {
        Json::Number(Numeral::NegInt(i))
    }
}

/// Weights by name as a JSON object; of one name the last weight counts.
pub open spec fn weights_entries(w: Seq<(Seq<char>, i32)>) -> Seq<(Seq<char>, JsonView)>
    decreases w.len(),
{
    if w.len() == 0 {
        Seq::empty()
    } else {
        with_key(weights_entries(w.drop_last()), w.last().0, int_json(w.last().1 as int))
    }
}

pub fn weights_value(w: &Vec<(String, i32)>) -> (r: Json)
    ensures
        r@ == JsonView::Object(weights_entries(weight_views(w@))),
{
    let ghost all = weight_views(w@);
    let mut o = no_entries();
    let mut i: usize = 0;
    assert(all.take(0) == Seq::<(Seq<char>, i32)>::empty());
    while i < w.len()
        invariant
            i <= w@.len(),
            all == weight_views(w@),
            entry_views(o@) == weights_entries(all.take(i as int)),
        decreases w@.len() - i,
    {
        assert(all.take(i + 1).drop_last() == all.take(i as int));
        assert(all.take(i + 1).last() == all[i as int]);
        set_entry(&mut o, w[i].0.as_str(), int_value(w[i].1 as i64));
        i = i + 1;
    }
    assert(all.take(i as int) == all);
    Json::Object(o)
}

/// Weights as a JSON value.
pub open spec fn weights_json(w: Option<Seq<(Seq<char>, i32)>>) -> JsonView {
    match w {
        Some(s) => JsonView::Object(weights_entries(s)),
        None => JsonView::Null,
    }
}

/// A number as a JSON value.
pub open spec fn number_json(n: Option<i64>) -> JsonView {
    match n {
        Some(i) => int_json(i as int),
        None => JsonView::Null,
    }
}

/// The options of a query as a JSON value.
pub open spec fn options_json(o: OptionsView) -> JsonView {
    JsonView::Object(
        seq![
            ("sort"@, weights_json(o.sort)),
            ("projection"@, weights_json(o.projection)),
            ("limit"@, number_json(o.limit)),
            ("skip"@, number_json(o.skip)),
        ],
    )
}

fn opt_weights_value(w: &Option<Vec<(String, i32)>>) -> (r: Json)
    ensures
        r@ == weights_json(opt_weights(*w)),
{
    match w {
        Some(v) => weights_value(v),
        None => Json::Null,
    }
}

fn opt_number_value(n: Option<i64>) -> (r: Json)
    ensures
        r@ == number_json(n),
{
    match n {
        Some(i) => int_value(i),
        None => Json::Null,
    }
}

/// The options of a query as a JSON value.
pub fn options_value(options: &FindOptions) -> (r: Json)
    ensures
        r@ == options_json(options@),
{
    let mut o = no_entries();
    put(&mut o, "sort", opt_weights_value(&options.sort));
    put(&mut o, "projection", opt_weights_value(&options.projection));
    put(&mut o, "limit", opt_number_value(options.limit));
    put(&mut o, "skip", opt_number_value(options.skip));
    let r = Json::Object(o);
    assert(r@->Object_0 == options_json(options@)->Object_0);
    r
}

/// What tells one query from another.
pub open spec fn find_key_value(
    collection: Seq<char>,
    query: JsonView,
    options: OptionsView,
) -> JsonView {
    JsonView::Object(
        seq![
            ("collectionName"@, JsonView::String(collection)),
            ("query"@, query),
            ("options"@, options_json(options)),
        ],
    )
}

/// The name under which the result of a query is kept.
pub open spec fn find_key(collection: Seq<char>, query: JsonView, options: OptionsView) -> Seq<
    char,
> {
    text_of(find_key_value(collection, query, options))
}

/// The name under which the result of a query is kept.
pub fn build_find_cache_key(collection_name: &str, query: &Json, options: &FindOptions) -> (r:
    String)
    ensures
        r@ == find_key(collection_name@, query@, options@),
{
    let mut o = no_entries();
    put(&mut o, "collectionName", text_value(collection_name));
    put(&mut o, "query", query.clone());
    put(&mut o, "options", options_value(options));
    let v = Json::Object(o);
    assert(v@->Object_0 == find_key_value(collection_name@, query@, options@)->Object_0);
    to_text(&v)
}

/// The result of a query, under the name of the query.
#[derive(Debug)]
pub struct FindCacheEntry {
    pub key: String,
    pub collection_name: String,
    pub query: Json,
    pub options: FindOptions,
    pub result: Vec<Json>,
}

/// What a kept result is.
#[verifier::ext_equal]
pub struct EntryView {
    pub key: Seq<char>,
    pub collection_name: Seq<char>,
    pub query: JsonView,
    pub options: OptionsView,
    pub result: Seq<JsonView>,
}

impl View for FindCacheEntry {
    type V = EntryView;

    open spec fn view(&self) -> EntryView {
        EntryView {
            key: self.key@,
            collection_name: self.collection_name@,
            query: self.query@,
            options: self.options@,
            result: views(self.result@),
        }
    }
}

/// The kept results.
pub open spec fn cache_views(v: Seq<FindCacheEntry>) -> Seq<EntryView> {
    v.map_values(|e: FindCacheEntry| e@)
}

/// A change to a collection or a database.
#[derive(Debug)]
pub struct ChangeEvent {
    pub category: String,
    pub collection_name: String,
    pub event: String,
    pub before: Option<Json>,
    pub after: Option<Json>,
}

/// What a change is.
#[verifier::ext_equal]
pub struct ChangeView {
    pub category: Seq<char>,
    pub collection_name: Seq<char>,
    pub event: Seq<char>,
    pub before: Option<JsonView>,
    pub after: Option<JsonView>,
}

impl View for ChangeEvent {
    type V = ChangeView;

    open spec fn view(&self) -> ChangeView {
        ChangeView {
            category: self.category@,
            collection_name: self.collection_name@,
            event: self.event@,
            before: own_view(self.before),
            after: own_view(self.after),
        }
    }
}

/// Whether a kept result is that of a query for all documents of a collection
/// in their own order, from the first one on.
pub open spec fn is_snapshot(e: EntryView) -> bool {
    &&& (e.query matches JsonView::Object(o) ==> o.len() == 0)
    &&& e.options.sort is None
    &&& e.options.projection is None
    &&& (e.options.skip matches Some(n) ==> n == 0)
}

/// Whether a kept result is that of a query for all documents.
pub fn is_default_snapshot(entry: &FindCacheEntry) -> (r: bool)
    ensures
        r == is_snapshot(entry@),
{
    let all = match &entry.query {
        Json::Object(o) => o.len() == 0,
        _ => true,
    };
    let first = match entry.options.skip {
        Some(n) => n == 0,
        None => true,
    };
    all && entry.options.sort.is_none() && entry.options.projection.is_none() && first
}

/// What tells one document from another: the text of its id.
pub open spec fn id_text(doc: JsonView) -> Option<Seq<char>> {
    match doc {
        JsonView::Object(o) => match lookup(o, "_id"@) {
            Some(id) => Some(text_of(id)),
            None => None,
        },
        _ => None,
    }
}

/// What tells one document from another.
pub fn doc_key(doc: &Json) -> (r: Option<String>)
    ensures
        string_view(r) == id_text(doc@),
{
    match doc.get("_id") {
        Some(id) => Some(to_text(id)),
        None => None,
    }
}

pub open spec fn opt_id_text(doc: Option<JsonView>) -> Option<Seq<char>> {
    match doc {
        Some(d) => id_text(d),
        None => None,
    }
}

fn opt_doc_key(doc: &Option<Json>) -> (r: Option<String>)
    ensures
        string_view(r) == opt_id_text(own_view(*doc)),
{
    match doc {
        Some(d) => doc_key(d),
        None => None,
    }
}

fn same_key(a: &Option<String>, b: &Option<String>) -> (r: bool)
    ensures
        r == (string_view(*a) == string_view(*b)),
{
    match (a, b) {
        (Some(x), Some(y)) => same_text(x.as_str(), y.as_str()),
        (None, None) => true,
        _ => false,
    }
}

/// The documents that have neither of two keys.
pub open spec fn others(docs: Seq<JsonView>, a: Option<Seq<char>>, b: Option<Seq<char>>) -> Seq<
    JsonView,
>
    decreases docs.len(),
{
    if docs.len() == 0 {
        docs
    } else {
        let head = others(docs.drop_last(), a, b);
        if id_text(docs.last()) != a && id_text(docs.last()) != b {
            head.push(docs.last())
        } else {
            head
        }
    }
}

fn keep_others(docs: Vec<Json>, a: &Option<String>, b: &Option<String>) -> (r: Vec<Json>)
    ensures
        views(r@) == others(views(docs@), string_view(*a), string_view(*b)),
{
    let ghost all = views(docs@);
    let mut out: Vec<Json> = Vec::new();
    let mut i: usize = 0;
    assert(all.take(0) == Seq::<JsonView>::empty());
    assert(views(out@) == Seq::<JsonView>::empty());
    while i < docs.len()
        invariant
            i <= docs@.len(),
            all == views(docs@),
            views(out@) == others(all.take(i as int), string_view(*a), string_view(*b)),
        decreases docs@.len() - i,
    {
        assert(all.take(i + 1).drop_last() == all.take(i as int));
        assert(all.take(i + 1).last() == all[i as int]);
        let k = doc_key(&docs[i]);
        if !same_key(&k, a) && !same_key(&k, b) {
            let ghost before = views(out@);
            out.push(docs[i].clone());
            assert(views(out@) == before.push(all[i as int]));
        }
        i = i + 1;
    }
    assert(all.take(i as int) == all);
    out
}

/// The first documents, as many as a limit allows.
pub open spec fn limited(docs: Seq<JsonView>, limit: Option<i64>) -> Seq<JsonView> {
    match limit {
        Some(n) => if n <= 0 {
            Seq::empty()
        } else if n < docs.len() {
            docs.take(n as int)
        } else {
            docs
        },
        None => docs,
    }
}

/// A document put before others, as many as a limit allows.
pub open spec fn put_first(doc: JsonView, docs: Seq<JsonView>, limit: Option<i64>) -> Seq<
    JsonView,
> {
    limited(seq![doc] + docs, limit)
}

fn add_first(doc: &Json, docs: Vec<Json>, limit: Option<i64>) -> (r: Vec<Json>)
    ensures
        views(r@) == put_first(doc@, views(docs@), limit),
{
    let mut docs = docs;
    let ghost all = views(docs@);
    docs.insert(0, doc.clone());
    assert(views(docs@) == seq![doc@] + all);
    match limit {
        Some(n) => if n <= 0 {
            docs.truncate(0);
            assert(views(docs@) == Seq::<JsonView>::empty());
        } else if (n as u64) < docs.len() as u64 {
            docs.truncate(n as usize);
            assert(views(docs@) == (seq![doc@] + all).take(n as int));
        },
        None => {},
    }
    docs
}

/// What a kept result becomes after a change; `None` where it is dropped.
pub open spec fn refreshed(e: EntryView, change: ChangeView) -> Option<EntryView> {
    let before = opt_id_text(change.before);
    let after = opt_id_text(change.after);
    if e.collection_name != change.collection_name {
        Some(e)
    } else if !is_snapshot(e) {
        None
    } else if change.event == "insertOne"@ {
        match change.after {
            Some(doc) => Some(
                EntryView {
                    result: put_first(doc, others(e.result, after, after), e.options.limit),
                    ..e
                },
            ),
            None => Some(e),
        }
    } else if change.event == "updateOne"@ || change.event == "replaceOne"@ {
        match change.after {
            Some(doc) => Some(
                EntryView {
                    result: put_first(doc, others(e.result, before, after), e.options.limit),
                    ..e
                },
            ),
            None => Some(e),
        }
    } else if change.event == "deleteOne"@ {
        if before is Some {
            Some(EntryView { result: others(e.result, before, before), ..e })
        } else {
            Some(e)
        }
    } else {
        None
    }
}

fn refresh(entry: FindCacheEntry, change: &ChangeEvent) -> (r: Option<FindCacheEntry>)
    ensures
        match r {
            Some(e) => refreshed(entry@, change@) == Some(e@),
            None => refreshed(entry@, change@) is None,
        },
{
    if !same_text(entry.collection_name.as_str(), change.collection_name.as_str()) {
        return Some(entry);
    }
    if !is_default_snapshot(&entry) {
        return None;
    }
    let before = opt_doc_key(&change.before);
    let after = opt_doc_key(&change.after);
    let event = change.event.as_str();
    let FindCacheEntry { key, collection_name, query, options, result } = entry;
    let limit = options.limit;
    let result = if same_text(event, "insertOne") {
        match &change.after {
            Some(doc) => add_first(doc, keep_others(result, &after, &after), limit),
            None => result,
        }
    } else if same_text(event, "updateOne") || same_text(event, "replaceOne") {
        match &change.after {
            Some(doc) => add_first(doc, keep_others(result, &before, &after), limit),
            None => result,
        }
    } else if same_text(event, "deleteOne") {
        if before.is_some() {
            keep_others(result, &before, &before)
        } else {
            result
        }
    } else {
        return None;
    };
    Some(FindCacheEntry { key, collection_name, query, options, result })
}

/// What kept results become after a change to a collection.
pub open spec fn refreshed_all(cache: Seq<EntryView>, change: ChangeView) -> Seq<EntryView>
    decreases cache.len(),
{
    if cache.len() == 0 {
        cache
    } else {
        let head = refreshed_all(cache.drop_last(), change);
        match refreshed(cache.last(), change) {
            Some(e) => head.push(e),
            None => head,
        }
    }
}

/// What kept results become after a change.
pub open spec fn after_change(cache: Seq<EntryView>, change: ChangeView) -> Seq<EntryView> {
    if change.category == "collection"@ {
        refreshed_all(cache, change)
    } else {
        cache
    }
}

/// Brings kept results up to date with a change.
pub fn update_find_caches_from_change(cache: &mut Vec<FindCacheEntry>, change: &ChangeEvent)
    ensures
        cache_views(final(cache)@) == after_change(cache_views(old(cache)@), change@),
{
    if !same_text(change.category.as_str(), "collection") {
        return;
    }
    let ghost all = cache_views(cache@);
    let ghost mut done: int = 0;
    let mut i: usize = 0;
    assert(all.take(0) == Seq::<EntryView>::empty());
    assert(cache_views(cache@) == refreshed_all(all.take(0), change@) + all.skip(0));
    while i < cache.len()
        invariant
            0 <= done <= all.len(),
            i <= cache@.len(),
            cache@.len() - i == all.len() - done,
            i == refreshed_all(all.take(done), change@).len(),
            cache_views(cache@) == refreshed_all(all.take(done), change@) + all.skip(done),
        decreases cache@.len() - i,
    {
        let ghost head = refreshed_all(all.take(done), change@);
        let ghost was = cache_views(cache@);
        assert(was[i as int] == all[done]);
        assert(all.take(done + 1).drop_last() == all.take(done));
        assert(all.take(done + 1).last() == all[done]);
        let entry = cache.remove(i);
        assert(entry@ == was[i as int]);
        let ghost rest = cache_views(cache@);
        assert(rest == was.remove(i as int));
        assert(was.remove(i as int) == head + all.skip(done + 1));
        match refresh(entry, change) {
            Some(e) => {
                let ghost v = e@;
                cache.insert(i, e);
                assert(cache_views(cache@) == rest.insert(i as int, v));
                assert(cache_views(cache@) == head.push(v) + all.skip(done + 1));
                i = i + 1;
            },
            None => {},
        }
        proof {
            done = done + 1;
        }
    }
    assert(all.take(done) == all);
    assert(all.skip(done) == Seq::<EntryView>::empty());
    assert(refreshed_all(all, change@) + Seq::<EntryView>::empty() == refreshed_all(all, change@));
}

/// The kept results of the other collections.
pub open spec fn without_collection(cache: Seq<EntryView>, collection: Seq<char>) -> Seq<EntryView>
    decreases cache.len(),
{
    if cache.len() == 0 {
        cache
    } else {
        let head = without_collection(cache.drop_last(), collection);
        if cache.last().collection_name == collection {
            head
        } else {
            head.push(cache.last())
        }
    }
}

/// Drops the kept results of a collection.
pub fn clear_find_caches_for_collection(cache: &mut Vec<FindCacheEntry>, collection: &str)
    ensures
        cache_views(final(cache)@) == without_collection(cache_views(old(cache)@), collection@),
{
    let ghost all = cache_views(cache@);
    let ghost mut done: int = 0;
    let mut i: usize = 0;
    assert(all.take(0) == Seq::<EntryView>::empty());
    assert(cache_views(cache@) == without_collection(all.take(0), collection@) + all.skip(0));
    while i < cache.len()
        invariant
            0 <= done <= all.len(),
            i <= cache@.len(),
            cache@.len() - i == all.len() - done,
            i == without_collection(all.take(done), collection@).len(),
            cache_views(cache@) == without_collection(all.take(done), collection@) + all.skip(done),
        decreases cache@.len() - i,
    {
        let ghost head = without_collection(all.take(done), collection@);
        let ghost was = cache_views(cache@);
        assert(was[i as int] == all[done]);
        assert(all.take(done + 1).drop_last() == all.take(done));
        assert(all.take(done + 1).last() == all[done]);
        if same_text(cache[i].collection_name.as_str(), collection) {
            cache.remove(i);
            assert(cache_views(cache@) == was.remove(i as int));
            assert(was.remove(i as int) == head + all.skip(done + 1));
        } else {
            assert(was == head.push(all[done]) + all.skip(done + 1));
            i = i + 1;
        }
        proof {
            done = done + 1;
        }
    }
    assert(all.take(done) == all);
    assert(all.skip(done) == Seq::<EntryView>::empty());
    assert(without_collection(all, collection@) + Seq::<EntryView>::empty() == without_collection(
        all,
        collection@,
    ));
}

/// Where the result kept under a name stands.
pub open spec fn kept_at(cache: Seq<EntryView>, key: Seq<char>) -> nat
    decreases cache.len(),
{
    if cache.len() == 0 || cache[0].key == key {
        0
    } else {
        kept_at(cache.drop_first(), key) + 1
    }
}

/// The result that is kept under a name.
pub open spec fn kept(cache: Seq<EntryView>, key: Seq<char>) -> Option<Seq<JsonView>> {
    if kept_at(cache, key) < cache.len() {
        Some(cache[kept_at(cache, key) as int].result)
    } else {
        None
    }
}

/// The kept results with one under its name.
pub open spec fn keeping(cache: Seq<EntryView>, e: EntryView) -> Seq<EntryView> {
    if kept_at(cache, e.key) < cache.len() {
        cache.update(kept_at(cache, e.key) as int, e)
    } else {
        cache.push(e)
    }
}

/// No two results are kept under one name.
pub open spec fn distinct_names(cache: Seq<EntryView>) -> bool {
    forall|i: int, j: int| 0 <= i < j < cache.len() ==> #[trigger] cache[i].key != #[trigger] cache[j].key
}

proof fn lemma_kept_at(cache: Seq<EntryView>, key: Seq<char>)
    ensures
        kept_at(cache, key) <= cache.len(),
        kept_at(cache, key) < cache.len() ==> cache[kept_at(cache, key) as int].key == key,
        forall|i: int| 0 <= i < kept_at(cache, key) ==> (#[trigger] cache[i]).key != key,
    decreases cache.len(),
{
    if cache.len() > 0 && cache[0].key != key {
        let rest = cache.drop_first();
        lemma_kept_at(rest, key);
        assert forall|i: int| 0 <= i < kept_at(cache, key) implies (#[trigger] cache[i]).key
            != key by {
            if i > 0 {
                assert(rest[i - 1] == cache[i]);
            }
        }
    }
}

proof fn lemma_kept_at_is(cache: Seq<EntryView>, key: Seq<char>, at: int)
    requires
        0 <= at <= cache.len(),
        at < cache.len() ==> cache[at].key == key,
        forall|i: int| 0 <= i < at ==> (#[trigger] cache[i]).key != key,
    ensures
        kept_at(cache, key) == at,
{
    lemma_kept_at(cache, key);
    if kept_at(cache, key) < at {
        assert(cache[kept_at(cache, key) as int].key == key);
    }
}

fn find_kept(cache: &Vec<FindCacheEntry>, key: &str) -> (r: usize)
    ensures
        r == kept_at(cache_views(cache@), key@),
        r <= cache@.len(),
{
    let ghost all = cache_views(cache@);
    let mut i: usize = 0;
    while i < cache.len()
        invariant
            i <= cache@.len(),
            all == cache_views(cache@),
            forall|j: int| 0 <= j < i ==> (#[trigger] all[j]).key != key@,
        decreases cache@.len() - i,
    {
        if same_text(cache[i].key.as_str(), key) {
            proof {
                lemma_kept_at_is(all, key@, i as int);
            }
            return i;
        }
        assert(all[i as int].key != key@);
        i = i + 1;
    }
    proof {
        lemma_kept_at_is(all, key@, i as int);
    }
    i
}

/// The result that is kept under a name.
pub fn kept_result(cache: &Vec<FindCacheEntry>, key: &str) -> (r: Option<Vec<Json>>)
    ensures
        match r {
            Some(v) => kept(cache_views(cache@), key@) == Some(views(v@)),
            None => kept(cache_views(cache@), key@) is None,
        },
{
    let i = find_kept(cache, key);
    if i < cache.len() {
        assert(cache_views(cache@)[i as int] == cache@[i as int]@);
        Some(crate::update::copy_list(&cache[i].result))
    } else {
        None
    }
}

/// Keeps a result under its name.
pub fn keep_result(cache: &mut Vec<FindCacheEntry>, entry: FindCacheEntry)
    ensures
        cache_views(final(cache)@) == keeping(cache_views(old(cache)@), entry@),
{
    let i = find_kept(cache, entry.key.as_str());
    let ghost all = cache_views(cache@);
    let ghost e = entry@;
    if i < cache.len() {
        cache.set(i, entry);
        assert(cache_views(cache@) == all.update(i as int, e));
    } else {
        cache.push(entry);
        assert(cache_views(cache@) == all.push(e));
    }
}

/// What is kept under a name is read back, and what is kept under other names
/// stays.
pub proof fn lemma_kept_reads_back(cache: Seq<EntryView>, e: EntryView, key: Seq<char>)
    ensures
        kept(keeping(cache, e), e.key) == Some(e.result),
        key != e.key ==> kept(keeping(cache, e), key) == kept(cache, key),
        distinct_names(cache) ==> distinct_names(keeping(cache, e)),
{
    lemma_kept_at(cache, e.key);
    let new = keeping(cache, e);
    let at = kept_at(cache, e.key) as int;
    assert forall|i: int| 0 <= i < at implies (#[trigger] new[i]).key != e.key by {
        assert(new[i] == cache[i]);
    }
    lemma_kept_at_is(new, e.key, at);
    if key != e.key {
        lemma_kept_at(cache, key);
        let k = kept_at(cache, key) as int;
        if k == cache.len() && at == cache.len() {
            assert forall|i: int| 0 <= i < k + 1 implies (#[trigger] new[i]).key != key by {
                if i < cache.len() {
                    assert(new[i] == cache[i]);
                }
            }
            lemma_kept_at_is(new, key, k + 1);
        } else {
            assert forall|i: int| 0 <= i < k implies (#[trigger] new[i]).key != key by {
                if i != at {
                    assert(new[i] == cache[i]);
                }
            }
            lemma_kept_at_is(new, key, k);
        }
    }
}

proof fn lemma_others(docs: Seq<JsonView>, a: Option<Seq<char>>, b: Option<Seq<char>>)
    ensures
        forall|i: int|
            0 <= i < others(docs, a, b).len() ==> id_text(#[trigger] others(docs, a, b)[i]) != a
                && id_text(others(docs, a, b)[i]) != b,
    decreases docs.len(),
{
    if docs.len() > 0 {
        lemma_others(docs.drop_last(), a, b);
    }
}

/// A change is seen in what is kept: a new or changed document comes first in
/// the kept result of all documents of its collection, and no other document
/// with its id is left there; a deleted document is gone from it.
pub proof fn lemma_change_is_seen(e: EntryView, change: ChangeView)
    requires
        e.collection_name == change.collection_name,
        is_snapshot(e),
        e.options.limit matches Some(n) ==> n > 0,
    ensures
        (change.event == "insertOne"@ || change.event == "updateOne"@ || change.event
            == "replaceOne"@) && change.after is Some ==> {
            let r = refreshed(e, change)->0.result;
            &&& refreshed(e, change) is Some
            &&& r.len() > 0
            &&& r[0] == change.after->0
            &&& forall|i: int| 1 <= i < r.len() ==> id_text(#[trigger] r[i]) != id_text(r[0])
        },
        change.event == "deleteOne"@ && opt_id_text(change.before) is Some ==> {
            let r = refreshed(e, change)->0.result;
            &&& refreshed(e, change) is Some
            &&& forall|i: int|
                0 <= i < r.len() ==> id_text(#[trigger] r[i]) != opt_id_text(change.before)
        },
{
    reveal_strlit("insertOne");
    reveal_strlit("updateOne");
    reveal_strlit("replaceOne");
    reveal_strlit("deleteOne");
    assert("insertOne"@[0] == 'i');
    assert("updateOne"@[0] == 'u');
    assert("replaceOne"@[0] == 'r');
    assert("deleteOne"@[0] == 'd');
    let before = opt_id_text(change.before);
    let after = opt_id_text(change.after);
    lemma_others(e.result, after, after);
    lemma_others(e.result, before, after);
    lemma_others(e.result, before, before);
}

/// A change to one collection leaves the kept results of the others alone, and
/// keeps none of its own collection but those of all documents.
pub proof fn lemma_change_reaches(cache: Seq<EntryView>, change: ChangeView)
    ensures
        without_collection(after_change(cache, change), change.collection_name)
            == without_collection(cache, change.collection_name),
        change.category == "collection"@ ==> forall|i: int|
            0 <= i < after_change(cache, change).len() ==> (#[trigger] after_change(cache, change)[i]).collection_name
                == change.collection_name ==> is_snapshot(after_change(cache, change)[i]),
    decreases cache.len(),
{
    if change.category == "collection"@ && cache.len() > 0 {
        lemma_change_reaches(cache.drop_last(), change);
        let head = refreshed_all(cache.drop_last(), change);
        if let Some(e) = refreshed(cache.last(), change) {
            assert(head.push(e).drop_last() == head);
        }
    }
}

} // verus!
