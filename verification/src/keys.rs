//! The names under which documents, index entries and statistics are stored,
//! and what is stored of a document.

use crate::float;
use crate::json::{entry_views, Json, JsonView};
use crate::object::{
    distinct_keys, field, float_of, has_key, json_eq, key_at, lookup, own_view, set_entry,
    string_view, well_formed, with_key,
};
use crate::path::{get_nested_value, get_path};
use crate::text::{begins_with, cache_key_segment, cat3, owned, pieces, segment, texts};
use crate::wire::{bare_text_of, from_text, json_to_string, parsed, portable, text_of, to_text};
use std::collections::hash_map::DefaultHasher;
use vstd::prelude::*;

verus! {

broadcast use crate::json::group_json_views;

/// Two texts with a colon between them.
pub open spec fn link(a: Seq<char>, b: Seq<char>) -> Seq<char> {
    a + seq![':'] + b
}

/// Two texts with a colon between them.
pub fn linked(a: &str, b: &str) -> (r: String)
    ensures
        r@ == link(a@, b@),
{
    proof {
        reveal_strlit(":");
        assert(":"@ == seq![':']);
    }
    cat3(a, ":", b)
}

/// The start of the names of what belongs to a collection.
pub open spec fn collection_base(prefix: Seq<char>, db: Seq<char>, collection: Seq<char>) -> Seq<
    char,
> {
    link(link(prefix, segment(db)), segment(collection))
}

/// The start of the names of what belongs to a collection.
fn base(prefix: &str, db: &str, collection: &str) -> (r: String)
    ensures
        r@ == collection_base(prefix@, db@, collection@),
{
    linked(
        linked(prefix, cache_key_segment(db).as_str()).as_str(),
        cache_key_segment(collection).as_str(),
    )
}

/// Whether a pattern that ends in a star, and has no other, covers a name.
pub open spec fn covers(pattern: Seq<char>, name: Seq<char>) -> bool {
    pattern.len() > 0 && pattern.last() == '*' && begins_with(name, pattern.drop_last())
}

/// What the names of the cached responses, the kept documents, the indexes and
/// the statistics start with.
pub open spec fn name_starts() -> Seq<Seq<char>> {
    seq![
        "microservicedb:request_cache"@,
        "microservicedb:doc"@,
        "microservicedb:idx"@,
        "microservicedb:idx_stats"@,
    ]
}

/// What is kept of one kind is apart from what is kept of another: no pattern of
/// the one kind covers a name of the other.
pub proof fn lemma_kinds_are_apart(i: int, j: int, name: Seq<char>, pattern: Seq<char>)
    requires
        0 <= i < 4,
        0 <= j < 4,
        i != j,
    ensures
        !covers(link(name_starts()[j], pattern.push('*')), link(name_starts()[i], name)),
{
    reveal_strlit("microservicedb:request_cache");
    reveal_strlit("microservicedb:doc");
    reveal_strlit("microservicedb:idx");
    reveal_strlit("microservicedb:idx_stats");
    let a = name_starts()[i];
    let b = name_starts()[j];
    let n = link(a, name);
    let p = link(b, pattern.push('*')).drop_last();
    assert(p == link(b, pattern));
    assert("microservicedb:request_cache"@[15] == 'r');
    assert("microservicedb:doc"@[15] == 'd');
    assert("microservicedb:idx"@[15] == 'i' && "microservicedb:idx"@.len() == 18);
    assert("microservicedb:idx_stats"@[15] == 'i' && "microservicedb:idx_stats"@[18] == '_');
    if begins_with(n, p) {
        assert(n.subrange(0, p.len() as int)[15] == p[15]);
        assert(n[15] == a[15] && p[15] == b[15]);
        assert(n.subrange(0, p.len() as int)[18] == p[18]);
        assert(i == 2 ==> n[18] == ':');
        assert(j == 2 ==> p[18] == ':');
        assert(i == 3 ==> n[18] == '_');
        assert(j == 3 ==> p[18] == '_');
    }
}

/// What is kept of single documents.
pub struct RedisDocumentCache {
    pub ttl_seconds: u64,
    pub prefix: String,
}

/// The name under which a document is kept.
pub open spec fn doc_name(
    prefix: Seq<char>,
    db: Seq<char>,
    collection: Seq<char>,
    id: Seq<char>,
) -> Seq<char> {
    link(collection_base(prefix, db, collection), segment(id))
}

/// The pattern of the names of the documents of a collection.
pub open spec fn collection_pattern_of(
    prefix: Seq<char>,
    db: Seq<char>,
    collection: Seq<char>,
) -> Seq<char> {
    link(collection_base(prefix, db, collection), "*"@)
}

/// The pattern of the names of the documents of a database.
pub open spec fn database_pattern_of(prefix: Seq<char>, db: Seq<char>) -> Seq<char> {
    link(link(prefix, segment(db)), "*"@)
}

/// The fields that are kept of a document: each with the text of its value.
pub open spec fn stored_fields(doc: JsonView) -> Option<Seq<(Seq<char>, Seq<char>)>> {
    match doc {
        JsonView::Object(o) => Some(
            o.map_values(|e: (Seq<char>, JsonView)| (e.0, text_of(e.1))),
        ),
        _ => None,
    }
}

/// The view of a list of pairs of texts.
pub open spec fn pair_views(s: Seq<(String, String)>) -> Seq<(Seq<char>, Seq<char>)> {
    s.map_values(|e: (String, String)| (e.0@, e.1@))
}

/// What a kept field stands for: what its text is as JSON, or the text.
pub open spec fn restored(s: Seq<char>) -> JsonView {
    match parsed(s) {
        Some(v) => v,
        None => JsonView::String(s),
    }
}

/// The entries that kept fields stand for.
pub open spec fn restored_entries(f: Seq<(Seq<char>, Seq<char>)>) -> Seq<(Seq<char>, JsonView)>
    decreases f.len(),
{
    if f.len() == 0 {
        Seq::empty()
    } else {
        with_key(restored_entries(f.drop_last()), f.last().0, restored(f.last().1))
    }
}

/// The document that kept fields stand for; no fields stand for no document.
pub open spec fn restored_doc(f: Seq<(Seq<char>, Seq<char>)>) -> Option<JsonView> {
    if f.len() == 0 {
        None
    } else {
        Some(JsonView::Object(restored_entries(f)))
    }
}

impl RedisDocumentCache {
    /// The kept documents, each for so many seconds.
    pub fn new(ttl_seconds: u64) -> (r: RedisDocumentCache)
        ensures
            r.ttl_seconds == ttl_seconds,
            r.prefix@ == name_starts()[1],
    {
        RedisDocumentCache { ttl_seconds, prefix: owned("microservicedb:doc") }
    }

    /// The name under which a document is kept.
    pub fn doc_key(&self, db: &str, collection: &str, doc_id: &str) -> (r: String)
        ensures
            r@ == doc_name(self.prefix@, db@, collection@, doc_id@),
    {
        linked(
            base(self.prefix.as_str(), db, collection).as_str(),
            cache_key_segment(doc_id).as_str(),
        )
    }

    /// The pattern of the names of the documents of a collection.
    pub fn collection_pattern(&self, db: &str, collection: &str) -> (r: String)
        ensures
            r@ == collection_pattern_of(self.prefix@, db@, collection@),
    {
        linked(base(self.prefix.as_str(), db, collection).as_str(), "*")
    }

    /// The pattern of the names of the documents of a database.
    pub fn database_pattern(&self, db: &str) -> (r: String)
        ensures
            r@ == database_pattern_of(self.prefix@, db@),
    {
        linked(linked(self.prefix.as_str(), cache_key_segment(db).as_str()).as_str(), "*")
    }

    /// The fields that are kept of a document; nothing is kept of what is no
    /// object.
    pub fn doc_fields(doc: &Json) -> (r: Option<Vec<(String, String)>>)
        ensures
            match r {
                Some(f) => stored_fields(doc@) == Some(pair_views(f@)),
                None => stored_fields(doc@) is None,
            },
            portable(doc@, 128) ==> (r matches Some(f) ==> forall|i: int|
                0 <= i < f@.len() ==> parsed((#[trigger] pair_views(f@)[i]).1) == Some(
                    doc@->Object_0[i].1,
                )),
    {
        match doc {
            Json::Object(o) => {
                let ghost e = entry_views(o@);
                let ghost all = stored_fields(doc@)->Some_0;
                let mut out: Vec<(String, String)> = Vec::new();
                let mut i: usize = 0;
                while i < o.len()
                    invariant
                        i <= o@.len(),
                        e == entry_views(o@),
                        doc@ == JsonView::Object(e),
                        stored_fields(doc@) == Some(all),
                        all.len() == e.len(),
                        pair_views(out@) == all.take(i as int),
                        portable(doc@, 128) ==> forall|j: int|
                            0 <= j < i ==> parsed((#[trigger] pair_views(out@)[j]).1) == Some(
                                doc@->Object_0[j].1,
                            ),
                    decreases o@.len() - i,
                {
                    let ghost before = pair_views(out@);
                    let t = to_text(&o[i].1);
                    let ghost f = (o@[i as int].0@, t@);
                    assert(doc@->Object_0[i as int] == e[i as int]);
                    out.push((o[i].0.clone(), t));
                    assert(pair_views(out@) == before.push(f));
                    assert(all.take(i + 1) == all.take(i as int).push(f));
                    i = i + 1;
                }
                assert(all.take(i as int) == all);
                Some(out)
            },
            _ => None,
        }
    }

    /// The document that kept fields stand for.
    pub fn doc_from_fields(fields: &Vec<(String, String)>) -> (r: Option<Json>)
        ensures
            own_view(r) == restored_doc(pair_views(fields@)),
    {
        if fields.len() == 0 {
            return None;
        }
        let ghost all = pair_views(fields@);
        let mut o: Vec<(String, Json)> = Vec::new();
        let mut i: usize = 0;
        assert(entry_views(o@) == Seq::<(Seq<char>, JsonView)>::empty());
        assert(all.take(0) == Seq::<(Seq<char>, Seq<char>)>::empty());
        while i < fields.len()
            invariant
                i <= fields@.len(),
                all == pair_views(fields@),
                entry_views(o@) == restored_entries(all.take(i as int)),
            decreases fields@.len() - i,
        {
            assert(all.take(i + 1).drop_last() == all.take(i as int));
            assert(all.take(i + 1).last() == all[i as int]);
            let v = match from_text(fields[i].1.as_str()) {
                Some(v) => v,
                None => Json::String(fields[i].1.clone()),
            };
            set_entry(&mut o, fields[i].0.as_str(), v);
            i = i + 1;
        }
        assert(all.take(i as int) == all);
        Some(Json::Object(o))
    }
}

/// Kept fields with distinct names stand for as many entries, in their order.
proof fn lemma_restored_entries(f: Seq<(Seq<char>, Seq<char>)>)
    requires
        forall|i: int, j: int| 0 <= i < j < f.len() ==> (#[trigger] f[i]).0 != (#[trigger] f[j]).0,
    ensures
        restored_entries(f).len() == f.len(),
        forall|i: int|
            0 <= i < f.len() ==> (#[trigger] restored_entries(f)[i]) == (f[i].0, restored(f[i].1)),
    decreases f.len(),
{
    if f.len() > 0 {
        let d = f.drop_last();
        assert forall|i: int, j: int| 0 <= i < j < d.len() implies (#[trigger] d[i]).0
            != (#[trigger] d[j]).0 by {
            assert(d[i] == f[i] && d[j] == f[j]);
        }
        lemma_restored_entries(d);
        let r = restored_entries(d);
        crate::object::lemma_key_at(r, f.last().0);
        if has_key(r, f.last().0) {
            let i = key_at(r, f.last().0) as int;
            assert(r[i] == (d[i].0, restored(d[i].1)));
            assert(f[i].0 == f[f.len() - 1].0);
        }
        assert(restored_entries(f) == r.push((f.last().0, restored(f.last().1))));
        assert forall|i: int| 0 <= i < f.len() implies (#[trigger] restored_entries(f)[i]) == (
            f[i].0,
            restored(f[i].1),
        ) by {
            if i < d.len() {
                assert(r[i] == (d[i].0, restored(d[i].1)));
            }
        }
    }
}

/// Whether kept fields are those of a document and each reads back as the value
/// that it was written from.
pub open spec fn faithful(doc: JsonView, f: Seq<(Seq<char>, Seq<char>)>) -> bool {
    &&& stored_fields(doc) == Some(f)
    &&& forall|i: int|
        0 <= i < f.len() ==> parsed((#[trigger] f[i]).1) == Some(doc->Object_0[i].1)
}

/// What is kept of a document is read back as the document, in whatever order
/// its fields are handed out: equal to it, and the same where the order is kept.
pub proof fn lemma_document_reads_back(
    doc: JsonView,
    written: Seq<(Seq<char>, Seq<char>)>,
    read: Seq<(Seq<char>, Seq<char>)>,
)
    requires
        well_formed(doc),
        faithful(doc, written),
        written.len() > 0,
        read.to_multiset() == written.to_multiset(),
    ensures
        restored_doc(read) matches Some(d) && json_eq(d, doc) && well_formed(d),
        restored_doc(written) == Some(doc),
{
    broadcast use vstd::seq_lib::group_to_multiset_ensures;

    let o = doc->Object_0;
    assert forall|i: int, j: int| 0 <= i < j < written.len() implies (#[trigger] written[i]).0
        != (#[trigger] written[j]).0 by {
        assert(written[i].0 == o[i].0 && written[j].0 == o[j].0);
    }
    lemma_restored_entries(written);
    assert forall|i: int| 0 <= i < o.len() implies restored_entries(written)[i] == o[i] by {
        assert(restored_entries(written)[i] == (written[i].0, restored(written[i].1)));
        assert(parsed(written[i].1) == Some(o[i].1));
    }
    assert(restored_entries(written) == o);
    assert(written.no_duplicates());
    written.lemma_multiset_has_no_duplicates();
    read.lemma_multiset_has_no_duplicates_conv();
    assert(read.len() == read.to_multiset().len());
    assert(written.len() == written.to_multiset().len());
    assert forall|i: int| 0 <= i < read.len() implies written.contains(#[trigger] read[i]) by {
        assert(read.contains(read[i]));
        assert(read.to_multiset().count(read[i]) > 0);
        assert(written.to_multiset().count(read[i]) > 0);
    }
    assert forall|i: int, j: int| 0 <= i < j < read.len() implies (#[trigger] read[i]).0
        != (#[trigger] read[j]).0 by {
        assert(written.contains(read[i]) && written.contains(read[j]));
        let a = choose|a: int| 0 <= a < written.len() && written[a] == read[i];
        let b = choose|b: int| 0 <= b < written.len() && written[b] == read[j];
        if a == b {
            assert(read[i] == read[j]);
        } else if a < b {
            assert(written[a].0 != written[b].0);
        } else {
            assert(written[b].0 != written[a].0);
        }
    }
    lemma_restored_entries(read);
    let r = restored_entries(read);
    assert forall|i: int| 0 <= i < r.len() implies has_key(o, (#[trigger] r[i]).0) && json_eq(
        r[i].1,
        lookup(o, r[i].0)->Some_0,
    ) && well_formed(r[i].1) by {
        assert(r[i] == (read[i].0, restored(read[i].1)));
        assert(written.contains(read[i]));
        let a = choose|a: int| 0 <= a < written.len() && written[a] == read[i];
        assert(parsed(written[a].1) == Some(o[a].1));
        assert(r[i] == o[a]);
        crate::value::lemma_found(o, a);
        assert(well_formed(o[a].1));
        crate::value::lemma_json_eq_reflexive(o[a].1);
    }
    assert(distinct_keys(r)) by {
        assert forall|i: int, j: int| 0 <= i < j < r.len() implies r[i].0 != r[j].0 by {
            assert(r[i].0 == read[i].0 && r[j].0 == read[j].0);
        }
    }
}

/// A link ends its first part where the second begins: where it begins with a
/// part and a colon, and neither part holds a colon, the parts are the same.
pub proof fn lemma_link_parts(a: Seq<char>, x: Seq<char>, b: Seq<char>)
    requires
        !a.contains(':'),
        !b.contains(':'),
        begins_with(link(a, x), b + seq![':']),
    ensures
        a == b,
{
    let s = link(a, x);
    let p = b + seq![':'];
    assert(s[a.len() as int] == ':');
    assert(p[b.len() as int] == ':');
    assert forall|i: int| 0 <= i < p.len() implies s[i] == p[i] by {
        assert(s.subrange(0, p.len() as int)[i] == p[i]);
    }
    if a.len() < b.len() {
        assert(p[a.len() as int] == b[a.len() as int]);
        assert(b.contains(':'));
    } else if b.len() < a.len() {
        assert(s[b.len() as int] == a[b.len() as int]);
        assert(a.contains(':'));
    } else {
        assert(a == b) by {
            assert forall|i: int| 0 <= i < a.len() implies a[i] == b[i] by {
                assert(s[i] == a[i] && p[i] == b[i]);
            }
        }
    }
}

/// The pattern of a database covers the documents of that database and no
/// others, and the pattern of a collection those of that collection.
pub proof fn lemma_patterns_cover(
    prefix: Seq<char>,
    db: Seq<char>,
    collection: Seq<char>,
    other_db: Seq<char>,
    other_collection: Seq<char>,
    id: Seq<char>,
)
    ensures
        covers(
            database_pattern_of(prefix, db),
            doc_name(prefix, other_db, other_collection, id),
        ) <==> db == other_db,
        covers(
            collection_pattern_of(prefix, db, collection),
            doc_name(prefix, other_db, other_collection, id),
        ) <==> db == other_db && collection == other_collection,
{
    reveal_strlit("*");
    let name = doc_name(prefix, other_db, other_collection, id);
    let d = segment(db);
    let c = segment(collection);
    let od = segment(other_db);
    let oc = segment(other_collection);
    let oi = segment(id);
    crate::text::lemma_segment_has_no_separator(db);
    crate::text::lemma_segment_has_no_separator(collection);
    crate::text::lemma_segment_has_no_separator(other_db);
    crate::text::lemma_segment_has_no_separator(other_collection);
    let start = prefix + seq![':'];
    let inner = link(od, link(oc, oi));
    assert(name == start + inner);
    let dbp = database_pattern_of(prefix, db).drop_last();
    assert(dbp == start + (d + seq![':']));
    lemma_begins_after(start, inner, d + seq![':']);
    let colp = collection_pattern_of(prefix, db, collection).drop_last();
    assert(colp == start + link(d, c + seq![':']));
    lemma_begins_after(start, inner, link(d, c + seq![':']));
    if begins_with(inner, d + seq![':']) {
        lemma_link_parts(od, link(oc, oi), d);
        crate::text::lemma_segment_injective(db, other_db);
    }
    if db == other_db {
        assert(inner.subrange(0, (d + seq![':']).len() as int) == d + seq![':']);
    }
    let dc = link(d, c + seq![':']);
    if begins_with(inner, dc) {
        let n = d.len() as int + 1;
        assert(dc.subrange(0, n) == d + seq![':']);
        assert(inner.subrange(0, n) == inner.subrange(0, dc.len() as int).subrange(0, n));
        assert(begins_with(inner, d + seq![':']));
        let s2 = d + seq![':'];
        assert(inner == s2 + link(oc, oi));
        assert(dc == s2 + (c + seq![':']));
        lemma_begins_after(s2, link(oc, oi), c + seq![':']);
        lemma_link_parts(oc, oi, c);
        crate::text::lemma_segment_injective(collection, other_collection);
    }
    if db == other_db && collection == other_collection {
        assert(inner.subrange(0, dc.len() as int) == dc);
    }
}

/// What follows a common start decides whether one text begins with another.
pub proof fn lemma_begins_after(start: Seq<char>, s: Seq<char>, p: Seq<char>)
    ensures
        begins_with(start + s, start + p) == begins_with(s, p),
{
    let a = start + s;
    let b = start + p;
    if begins_with(a, b) {
        assert(s.subrange(0, p.len() as int) == p) by {
            assert forall|i: int| 0 <= i < p.len() implies s[i] == p[i] by {
                assert(a.subrange(0, b.len() as int)[start.len() + i] == b[start.len() + i]);
            }
        }
    }
    if begins_with(s, p) {
        assert(a.subrange(0, b.len() as int) == b) by {
            assert forall|i: int| 0 <= i < b.len() implies a[i] == b[i] by {
                if i >= start.len() {
                    assert(s.subrange(0, p.len() as int)[i - start.len()] == p[i - start.len()]);
                }
            }
        }
    }
}

/// Two documents have the same name only if they are the same document of the
/// same collection.
pub proof fn lemma_doc_names_differ(
    prefix: Seq<char>,
    db: Seq<char>,
    collection: Seq<char>,
    id: Seq<char>,
    other_db: Seq<char>,
    other_collection: Seq<char>,
    other_id: Seq<char>,
)
    requires
        doc_name(prefix, db, collection, id) == doc_name(
            prefix,
            other_db,
            other_collection,
            other_id,
        ),
    ensures
        db == other_db,
        collection == other_collection,
        id == other_id,
{
    let name = doc_name(prefix, db, collection, id);
    lemma_patterns_cover(prefix, db, collection, db, collection, id);
    lemma_patterns_cover(prefix, db, collection, other_db, other_collection, other_id);
    let start = collection_base(prefix, db, collection) + seq![':'];
    assert(name.skip(start.len() as int) == segment(id));
    assert(name.skip(start.len() as int) == segment(other_id));
    crate::text::lemma_segment_injective(id, other_id);
}

/// The kinds of index on a field.
#[derive(Debug, Clone, Copy, PartialEq, Eq, Structural)]
pub enum IndexType {
    Numeric,
    Tag,
    String,
    Compound,
}

/// What is kept of documents by the values of their fields.
pub struct RedisIndexManager {
    pub prefix: String,
}

/// The start of the names of what belongs to a field.
pub open spec fn field_base(
    prefix: Seq<char>,
    db: Seq<char>,
    collection: Seq<char>,
    field: Seq<char>,
) -> Seq<char> {
    link(collection_base(prefix, db, collection), segment(field))
}

pub open spec fn numeric_name(
    prefix: Seq<char>,
    db: Seq<char>,
    collection: Seq<char>,
    field: Seq<char>,
) -> Seq<char> {
    link(field_base(prefix, db, collection, field), "numeric"@)
}

pub open spec fn tag_name(
    prefix: Seq<char>,
    db: Seq<char>,
    collection: Seq<char>,
    field: Seq<char>,
    value: Seq<char>,
) -> Seq<char> {
    link(link(field_base(prefix, db, collection, field), "tag"@), segment(value))
}

pub open spec fn string_name(
    prefix: Seq<char>,
    db: Seq<char>,
    collection: Seq<char>,
    field: Seq<char>,
    value: Seq<char>,
) -> Seq<char> {
    link(link(field_base(prefix, db, collection, field), "string"@), segment(value))
}

/// The texts of a list with colons between them.
pub open spec fn colon_joined(fields: Seq<Seq<char>>) -> Seq<char>
    decreases fields.len(),
{
    if fields.len() == 0 {
        Seq::empty()
    } else if fields.len() == 1 {
        fields[0]
    } else {
        link(colon_joined(fields.drop_last()), fields.last())
    }
}

pub open spec fn compound_name(
    prefix: Seq<char>,
    db: Seq<char>,
    collection: Seq<char>,
    fields: Seq<Seq<char>>,
) -> Seq<char> {
    link(field_base(prefix, db, collection, colon_joined(fields)), "compound"@)
}

/// What feeding a text to a hasher does to what was fed to it.
pub uninterp spec fn fed(state: Seq<Seq<u8>>, text: Seq<char>) -> Seq<Seq<u8>>;

/// `std::hash::Hash::hash` of a text: what it feeds to the hasher depends on
/// the text alone.
#[verifier::external_body]
fn feed(text: &str, hasher: &mut DefaultHasher)
    ensures
        final(hasher)@ == fed(old(hasher)@, text@),
{
    std::hash::Hash::hash(text, hasher)
}

/// The hash of a text.
pub open spec fn text_hash(text: Seq<char>) -> u64 {
    <DefaultHasher as vstd::std_specs::hash::DefaultHasherAdditionalSpecFns>::spec_finish(
        fed(Seq::empty(), text),
    )
}

/// The hash of a text.
pub fn hash_text(text: &str) -> (r: u64)
    ensures
        r == text_hash(text@),
{
    let mut hasher = DefaultHasher::new();
    feed(text, &mut hasher);
    std::hash::Hasher::finish(&hasher)
}

/// A hash as a fraction of the largest one: the float nearest to it, divided by
/// two to the power of 64.
pub open spec fn hash_fraction(hash: u64) -> u64 {
    float::product(float::of_int(hash as int), float::TWO_TO_MINUS_64)
}

/// A hash as a fraction of the largest one.
pub fn fraction(hash: u64) -> (r: u64)
    ensures
        r == hash_fraction(hash),
{
    assert(float::is_finite(float::TWO_TO_MINUS_64));
    float::multiply_floats(float::from_unsigned(hash), float::TWO_TO_MINUS_64)
}

/// A change to the indexes.
#[derive(Debug)]
pub enum IndexCommand {
    ZAdd { key: String, member: String, score: u64 },
    SAdd { key: String, member: String },
    Put { key: String, value: String },
    ZRem { key: String, member: String },
    SRem { key: String, member: String },
    Del { key: String },
}

/// What a change to the indexes is.
#[verifier::ext_equal]
pub enum CommandView {
    ZAdd { key: Seq<char>, member: Seq<char>, score: u64 },
    SAdd { key: Seq<char>, member: Seq<char> },
    Put { key: Seq<char>, value: Seq<char> },
    ZRem { key: Seq<char>, member: Seq<char> },
    SRem { key: Seq<char>, member: Seq<char> },
    Del { key: Seq<char> },
}

impl View for IndexCommand {
    type V = CommandView;

    open spec fn view(&self) -> CommandView {
        match self {
            IndexCommand::ZAdd { key, member, score } => CommandView::ZAdd {
                key: key@,
                member: member@,
                score: *score,
            },
            IndexCommand::SAdd { key, member } => CommandView::SAdd { key: key@, member: member@ },
            IndexCommand::Put { key, value } => CommandView::Put { key: key@, value: value@ },
            IndexCommand::ZRem { key, member } => CommandView::ZRem { key: key@, member: member@ },
            IndexCommand::SRem { key, member } => CommandView::SRem { key: key@, member: member@ },
            IndexCommand::Del { key } => CommandView::Del { key: key@ },
        }
    }
}

pub open spec fn command_views(s: Seq<IndexCommand>) -> Seq<CommandView> {
    s.map_values(|c: IndexCommand| c@)
}

/// The view of a list of index definitions.
pub open spec fn def_views(s: Seq<(String, IndexType)>) -> Seq<(Seq<char>, IndexType)> {
    s.map_values(|d: (String, IndexType)| (d.0@, d.1))
}

/// The id by which a document is indexed and kept.
pub open spec fn doc_id_of(doc: JsonView) -> Option<Seq<char>> {
    match field(doc, "_id"@) {
        Some(id) => Some(bare_text_of(id)),
        None => None,
    }
}

/// The tags of a value: those of its items, or its own.
pub open spec fn tags_of(v: JsonView) -> Seq<Seq<char>> {
    match v {
        JsonView::Array(a) => crate::plan::bare_texts(a),
        _ => seq![bare_text_of(v)],
    }
}

/// The changes that index one field of a document.
pub open spec fn field_additions(
    prefix: Seq<char>,
    db: Seq<char>,
    collection: Seq<char>,
    def: (Seq<char>, IndexType),
    id: Seq<char>,
    doc: JsonView,
) -> Seq<CommandView> {
    match get_path(doc, pieces(def.0, '.')) {
        Some(v) => match def.1 {
            IndexType::Numeric => match float_of(v) {
                Some(n) => seq![
                    CommandView::ZAdd {
                        key: numeric_name(prefix, db, collection, def.0),
                        member: id,
                        score: n,
                    },
                ],
                None => Seq::empty(),
            },
            IndexType::Tag => tags_of(v).map_values(
                |t: Seq<char>|
                    CommandView::SAdd {
                        key: tag_name(prefix, db, collection, def.0, t),
                        member: id,
                    },
            ),
            IndexType::String => seq![
                CommandView::Put {
                    key: string_name(prefix, db, collection, def.0, bare_text_of(v)),
                    value: id,
                },
            ],
            IndexType::Compound => seq![
                CommandView::ZAdd {
                    key: compound_name(prefix, db, collection, seq![def.0]),
                    member: id,
                    score: hash_fraction(text_hash(text_of(v))),
                },
            ],
        },
        None => Seq::empty(),
    }
}

/// The changes that take one field of a document out of its index.
pub open spec fn field_removals(
    prefix: Seq<char>,
    db: Seq<char>,
    collection: Seq<char>,
    def: (Seq<char>, IndexType),
    id: Seq<char>,
    doc: JsonView,
) -> Seq<CommandView> {
    match get_path(doc, pieces(def.0, '.')) {
        Some(v) => match def.1 {
            IndexType::Numeric => seq![
                CommandView::ZRem {
                    key: numeric_name(prefix, db, collection, def.0),
                    member: id,
                },
            ],
            IndexType::Tag => tags_of(v).map_values(
                |t: Seq<char>|
                    CommandView::SRem {
                        key: tag_name(prefix, db, collection, def.0, t),
                        member: id,
                    },
            ),
            IndexType::String => seq![
                CommandView::Del {
                    key: string_name(prefix, db, collection, def.0, bare_text_of(v)),
                },
            ],
            IndexType::Compound => seq![
                CommandView::ZRem {
                    key: compound_name(prefix, db, collection, seq![def.0]),
                    member: id,
                },
            ],
        },
        None => Seq::empty(),
    }
}

/// The changes that index a document.
pub open spec fn additions(
    prefix: Seq<char>,
    db: Seq<char>,
    collection: Seq<char>,
    defs: Seq<(Seq<char>, IndexType)>,
    id: Seq<char>,
    doc: JsonView,
) -> Seq<CommandView>
    decreases defs.len(),
{
    if defs.len() == 0 {
        Seq::empty()
    } else {
        additions(prefix, db, collection, defs.drop_last(), id, doc) + field_additions(
            prefix,
            db,
            collection,
            defs.last(),
            id,
            doc,
        )
    }
}

/// The changes that take a document out of its indexes.
pub open spec fn removals(
    prefix: Seq<char>,
    db: Seq<char>,
    collection: Seq<char>,
    defs: Seq<(Seq<char>, IndexType)>,
    id: Seq<char>,
    doc: JsonView,
) -> Seq<CommandView>
    decreases defs.len(),
{
    if defs.len() == 0 {
        Seq::empty()
    } else {
        removals(prefix, db, collection, defs.drop_last(), id, doc) + field_removals(
            prefix,
            db,
            collection,
            defs.last(),
            id,
            doc,
        )
    }
}

/// The id by which a document is indexed and kept.
pub fn document_id(doc: &Json) -> (r: Option<String>)
    ensures
        string_view(r) == doc_id_of(doc@),
{
    match doc.get("_id") {
        Some(id) => Some(json_to_string(id)),
        None => None,
    }
}

fn tag_list(v: &Json) -> (r: Vec<String>)
    ensures
        texts(r@) == tags_of(v@),
{
    match v {
        Json::Array(a) => crate::plan::text_list(a),
        _ => {
            let mut r: Vec<String> = Vec::new();
            r.push(json_to_string(v));
            assert(texts(r@) == seq![bare_text_of(v@)]);
            r
        },
    }
}

/// The index on one field by its tags, which suits all values.
pub fn tag_index(field: &str) -> (r: Vec<(String, IndexType)>)
    ensures
        def_views(r@) == seq![(field@, IndexType::Tag)],
{
    let mut r: Vec<(String, IndexType)> = Vec::new();
    r.push((owned(field), IndexType::Tag));
    assert(def_views(r@) == seq![(field@, IndexType::Tag)]);
    r
}

/// The index that every document is in: by its id.
pub fn id_index() -> (r: Vec<(String, IndexType)>)
    ensures
        def_views(r@) == seq![("_id"@, IndexType::Tag)],
{
    tag_index("_id")
}

impl RedisIndexManager {
    /// The indexes of all collections.
    pub fn new() -> (r: RedisIndexManager)
        ensures
            r.prefix@ == name_starts()[2],
    {
        RedisIndexManager { prefix: owned("microservicedb:idx") }
    }

    fn field_base(&self, db: &str, collection: &str, field: &str) -> (r: String)
        ensures
            r@ == field_base(self.prefix@, db@, collection@, field@),
    {
        linked(
            base(self.prefix.as_str(), db, collection).as_str(),
            cache_key_segment(field).as_str(),
        )
    }

    /// The name of the numeric index on a field.
    pub fn idx_key_numeric(&self, db: &str, collection: &str, field: &str) -> (r: String)
        ensures
            r@ == numeric_name(self.prefix@, db@, collection@, field@),
    {
        linked(self.field_base(db, collection, field).as_str(), "numeric")
    }

    /// The name of the index entry of a tag of a field.
    pub fn idx_key_tag(&self, db: &str, collection: &str, field: &str, value: &str) -> (r: String)
        ensures
            r@ == tag_name(self.prefix@, db@, collection@, field@, value@),
    {
        linked(
            linked(self.field_base(db, collection, field).as_str(), "tag").as_str(),
            cache_key_segment(value).as_str(),
        )
    }

    /// The name of the index entry of a text of a field.
    pub fn idx_key_string(
        &self,
        db: &str,
        collection: &str,
        field: &str,
        value: &str,
    ) -> (r: String)
        ensures
            r@ == string_name(self.prefix@, db@, collection@, field@, value@),
    {
        linked(
            linked(self.field_base(db, collection, field).as_str(), "string").as_str(),
            cache_key_segment(value).as_str(),
        )
    }

    /// The name of the index on several fields together.
    pub fn idx_key_compound(&self, db: &str, collection: &str, fields: &Vec<String>) -> (r: String)
        ensures
            r@ == compound_name(self.prefix@, db@, collection@, texts(fields@)),
    {
        let ghost all = texts(fields@);
        let mut name: String = String::new();
        let mut i: usize = 0;
        assert(all.take(0) == Seq::<Seq<char>>::empty());
        while i < fields.len()
            invariant
                i <= fields@.len(),
                all == texts(fields@),
                name@ == colon_joined(all.take(i as int)),
            decreases fields@.len() - i,
        {
            assert(all.take(i + 1).drop_last() == all.take(i as int));
            assert(all.take(i + 1).last() == all[i as int]);
            if i == 0 {
                name = fields[i].clone();
            } else {
                name = linked(name.as_str(), fields[i].as_str());
            }
            i = i + 1;
        }
        assert(all.take(i as int) == all);
        linked(self.field_base(db, collection, name.as_str()).as_str(), "compound")
    }

    /// The place of a value in an index on several fields: the hash of its text
    /// as a fraction.
    pub fn hash_value(val: &Json) -> (r: u64)
        ensures
            r == hash_fraction(text_hash(text_of(val@))),
    {
        fraction(hash_text(to_text(val).as_str()))
    }

    /// The changes that index a document; nothing without an id.
    pub fn index_document(
        &self,
        db: &str,
        collection: &str,
        doc: &Json,
        index_defs: &Vec<(String, IndexType)>,
    ) -> (r: Option<Vec<IndexCommand>>)
        ensures
            match r {
                Some(c) => doc_id_of(doc@) is Some && command_views(c@) == additions(
                    self.prefix@,
                    db@,
                    collection@,
                    def_views(index_defs@),
                    doc_id_of(doc@)->Some_0,
                    doc@,
                ),
                None => doc_id_of(doc@) is None,
            },
    {
        match document_id(doc) {
            Some(id) => {
                let ghost p = self.prefix@;
                let ghost defs = def_views(index_defs@);
                let mut out: Vec<IndexCommand> = Vec::new();
                let mut i: usize = 0;
                assert(defs.take(0) == Seq::<(Seq<char>, IndexType)>::empty());
                assert(command_views(out@) == Seq::<CommandView>::empty());
                while i < index_defs.len()
                    invariant
                        i <= index_defs@.len(),
                        p == self.prefix@,
                        defs == def_views(index_defs@),
                        command_views(out@) == additions(
                            p,
                            db@,
                            collection@,
                            defs.take(i as int),
                            id@,
                            doc@,
                        ),
                    decreases index_defs@.len() - i,
                {
                    assert(defs.take(i + 1).drop_last() == defs.take(i as int));
                    assert(defs.take(i + 1).last() == defs[i as int]);
                    self.add_field(
                        db,
                        collection,
                        index_defs[i].0.as_str(),
                        index_defs[i].1,
                        id.as_str(),
                        doc,
                        &mut out,
                    );
                    i = i + 1;
                }
                assert(defs.take(i as int) == defs);
                Some(out)
            },
            None => None,
        }
    }

    fn add_field(
        &self,
        db: &str,
        collection: &str,
        field: &str,
        kind: IndexType,
        id: &str,
        doc: &Json,
        out: &mut Vec<IndexCommand>,
    )
        ensures
            command_views(final(out)@) == command_views(old(out)@) + field_additions(
                self.prefix@,
                db@,
                collection@,
                (field@, kind),
                id@,
                doc@,
            ),
    {
        let ghost before = command_views(out@);
        let ghost more = field_additions(self.prefix@, db@, collection@, (field@, kind), id@, doc@);
        assert(before + Seq::<CommandView>::empty() == before);
        match get_nested_value(doc, field) {
            Some(v) => match kind {
                IndexType::Numeric => match v.as_float() {
                    Some(n) => {
                        out.push(
                            IndexCommand::ZAdd {
                                key: self.idx_key_numeric(db, collection, field),
                                member: owned(id),
                                score: n,
                            },
                        );
                        assert(command_views(out@) == before + more);
                    },
                    None => {},
                },
                IndexType::Tag => {
                    let tags = tag_list(&v);
                    let ghost all = tags_of(v@);
                    let mut j: usize = 0;
                    assert(before + more.take(0) == before);
                    while j < tags.len()
                        invariant
                            j <= tags@.len(),
                            all == texts(tags@),
                            all == tags_of(v@),
                            kind is Tag,
                            get_path(doc@, pieces(field@, '.')) == Some(v@),
                            more == field_additions(
                                self.prefix@,
                                db@,
                                collection@,
                                (field@, kind),
                                id@,
                                doc@,
                            ),
                            command_views(out@) == before + more.take(j as int),
                        decreases tags@.len() - j,
                    {
                        let ghost now = command_views(out@);
                        let c = IndexCommand::SAdd {
                            key: self.idx_key_tag(db, collection, field, tags[j].as_str()),
                            member: owned(id),
                        };
                        let ghost x = c@;
                        out.push(c);
                        assert(command_views(out@) == now.push(x));
                        assert(x == more[j as int]);
                        assert(before + more.take(j + 1) == (before + more.take(j as int)).push(
                            x,
                        ));
                        j = j + 1;
                    }
                    assert(more.take(j as int) == more);
                },
                IndexType::String => {
                    let text = json_to_string(&v);
                    out.push(
                        IndexCommand::Put {
                            key: self.idx_key_string(db, collection, field, text.as_str()),
                            value: owned(id),
                        },
                    );
                    assert(command_views(out@) == before + more);
                },
                IndexType::Compound => {
                    let mut fields: Vec<String> = Vec::new();
                    fields.push(owned(field));
                    assert(texts(fields@) == seq![field@]);
                    out.push(
                        IndexCommand::ZAdd {
                            key: self.idx_key_compound(db, collection, &fields),
                            member: owned(id),
                            score: Self::hash_value(&v),
                        },
                    );
                    assert(command_views(out@) == before + more);
                },
            },
            None => {},
        }
    }

    /// The changes that take a document out of its indexes; nothing without an
    /// id.
    pub fn unindex_document(
        &self,
        db: &str,
        collection: &str,
        doc: &Json,
        index_defs: &Vec<(String, IndexType)>,
    ) -> (r: Option<Vec<IndexCommand>>)
        ensures
            match r {
                Some(c) => doc_id_of(doc@) is Some && command_views(c@) == removals(
                    self.prefix@,
                    db@,
                    collection@,
                    def_views(index_defs@),
                    doc_id_of(doc@)->Some_0,
                    doc@,
                ),
                None => doc_id_of(doc@) is None,
            },
    {
        match document_id(doc) {
            Some(id) => {
                let ghost p = self.prefix@;
                let ghost defs = def_views(index_defs@);
                let mut out: Vec<IndexCommand> = Vec::new();
                let mut i: usize = 0;
                assert(defs.take(0) == Seq::<(Seq<char>, IndexType)>::empty());
                assert(command_views(out@) == Seq::<CommandView>::empty());
                while i < index_defs.len()
                    invariant
                        i <= index_defs@.len(),
                        p == self.prefix@,
                        defs == def_views(index_defs@),
                        command_views(out@) == removals(
                            p,
                            db@,
                            collection@,
                            defs.take(i as int),
                            id@,
                            doc@,
                        ),
                    decreases index_defs@.len() - i,
                {
                    assert(defs.take(i + 1).drop_last() == defs.take(i as int));
                    assert(defs.take(i + 1).last() == defs[i as int]);
                    self.remove_field(
                        db,
                        collection,
                        index_defs[i].0.as_str(),
                        index_defs[i].1,
                        id.as_str(),
                        doc,
                        &mut out,
                    );
                    i = i + 1;
                }
                assert(defs.take(i as int) == defs);
                Some(out)
            },
            None => None,
        }
    }

    fn remove_field(
        &self,
        db: &str,
        collection: &str,
        field: &str,
        kind: IndexType,
        id: &str,
        doc: &Json,
        out: &mut Vec<IndexCommand>,
    )
        ensures
            command_views(final(out)@) == command_views(old(out)@) + field_removals(
                self.prefix@,
                db@,
                collection@,
                (field@, kind),
                id@,
                doc@,
            ),
    {
        let ghost before = command_views(out@);
        let ghost more = field_removals(self.prefix@, db@, collection@, (field@, kind), id@, doc@);
        assert(before + Seq::<CommandView>::empty() == before);
        match get_nested_value(doc, field) {
            Some(v) => match kind {
                IndexType::Numeric => {
                    out.push(
                        IndexCommand::ZRem {
                            key: self.idx_key_numeric(db, collection, field),
                            member: owned(id),
                        },
                    );
                    assert(command_views(out@) == before + more);
                },
                IndexType::Tag => {
                    let tags = tag_list(&v);
                    let ghost all = tags_of(v@);
                    let mut j: usize = 0;
                    assert(before + more.take(0) == before);
                    while j < tags.len()
                        invariant
                            j <= tags@.len(),
                            all == texts(tags@),
                            all == tags_of(v@),
                            kind is Tag,
                            get_path(doc@, pieces(field@, '.')) == Some(v@),
                            more == field_removals(
                                self.prefix@,
                                db@,
                                collection@,
                                (field@, kind),
                                id@,
                                doc@,
                            ),
                            command_views(out@) == before + more.take(j as int),
                        decreases tags@.len() - j,
                    {
                        let ghost now = command_views(out@);
                        let c = IndexCommand::SRem {
                            key: self.idx_key_tag(db, collection, field, tags[j].as_str()),
                            member: owned(id),
                        };
                        let ghost x = c@;
                        out.push(c);
                        assert(command_views(out@) == now.push(x));
                        assert(x == more[j as int]);
                        assert(before + more.take(j + 1) == (before + more.take(j as int)).push(
                            x,
                        ));
                        j = j + 1;
                    }
                    assert(more.take(j as int) == more);
                },
                IndexType::String => {
                    let text = json_to_string(&v);
                    out.push(
                        IndexCommand::Del {
                            key: self.idx_key_string(db, collection, field, text.as_str()),
                        },
                    );
                    assert(command_views(out@) == before + more);
                },
                IndexType::Compound => {
                    let mut fields: Vec<String> = Vec::new();
                    fields.push(owned(field));
                    assert(texts(fields@) == seq![field@]);
                    out.push(
                        IndexCommand::ZRem {
                            key: self.idx_key_compound(db, collection, &fields),
                            member: owned(id),
                        },
                    );
                    assert(command_views(out@) == before + more);
                },
            },
            None => {},
        }
    }

    /// The pattern of the names of the indexes of a collection.
    pub fn collection_pattern(&self, db: &str, collection: &str) -> (r: String)
        ensures
            r@ == collection_pattern_of(self.prefix@, db@, collection@),
    {
        linked(base(self.prefix.as_str(), db, collection).as_str(), "*")
    }
}

/// Whether one change takes back another.
pub open spec fn takes_back(removal: CommandView, addition: CommandView) -> bool {
    match (addition, removal) {
        (
            CommandView::ZAdd { key: k, member: m, .. },
            CommandView::ZRem { key: l, member: n },
        ) => k == l && m == n,
        (
            CommandView::SAdd { key: k, member: m },
            CommandView::SRem { key: l, member: n },
        ) => k == l && m == n,
        (CommandView::Put { key: k, .. }, CommandView::Del { key: l }) => k == l,
        _ => false,
    }
}

/// Taking a document out of its indexes takes back everything that indexing it
/// added.
pub proof fn lemma_unindexing_takes_back(
    prefix: Seq<char>,
    db: Seq<char>,
    collection: Seq<char>,
    defs: Seq<(Seq<char>, IndexType)>,
    id: Seq<char>,
    doc: JsonView,
    i: int,
)
    requires
        0 <= i < additions(prefix, db, collection, defs, id, doc).len(),
    ensures
        exists|j: int|
            0 <= j < removals(prefix, db, collection, defs, id, doc).len() && takes_back(
                #[trigger] removals(prefix, db, collection, defs, id, doc)[j],
                additions(prefix, db, collection, defs, id, doc)[i],
            ),
    decreases defs.len(),
{
    let a = additions(prefix, db, collection, defs.drop_last(), id, doc);
    let r = removals(prefix, db, collection, defs.drop_last(), id, doc);
    let b = field_additions(prefix, db, collection, defs.last(), id, doc);
    let s = field_removals(prefix, db, collection, defs.last(), id, doc);
    let all = removals(prefix, db, collection, defs, id, doc);
    let x = additions(prefix, db, collection, defs, id, doc)[i];
    assert(all == r + s);
    if i < a.len() {
        lemma_unindexing_takes_back(prefix, db, collection, defs.drop_last(), id, doc, i);
        let j = choose|j: int| 0 <= j < r.len() && takes_back(#[trigger] r[j], a[i]);
        assert(all[j] == r[j]);
    } else {
        let k = i - a.len();
        assert(x == b[k]);
        assert(takes_back(s[k], b[k]));
        assert(all[r.len() + k] == s[k]);
    }
}

} // verus!
