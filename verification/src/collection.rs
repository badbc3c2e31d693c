//! Operations on the documents of a collection.

use crate::filter::{is_operator_object, is_operators, match_filter, selects};
use crate::json::{entry_views, views, Json, JsonView, Numeral};
use crate::keys::{doc_id_of, document_id, RedisIndexManager};
use crate::object::{
    bool_of, cloned_json, empty_object, field, has_key, key_index, nat_of, nat_value, opt_view, set_entry,
    text_value, well_formed, with_key,
};
use crate::plan::{plan_of, QueryPlanAnalyzer};
use crate::project::{apply_projection, projected};
use crate::request::{no_entries, nonempty_text, opt_str, put, require_collection_name, wanted_collection};
use crate::select::{
    answers, found_docs, found_ids, ids_from_replies, index_query_views, matching, matching_docs, own_views,
    present, select_docs, strategy_queries, text_lists, IndexQuery, IndexQueryView, Query, QueryView,
};
use crate::text::{begins_with, cat, cat3, owned, same_text, starts_with, texts};
use crate::update::{apply_update_operators, copy_list, edited};
use crate::value::{alike, value_eq};
use vstd::prelude::*;

verus! {

broadcast use crate::json::group_json_views;

/// The collection that keeps an empty database in being.
pub const BOOTSTRAP_COLLECTION: &'static str = "__mdb_placeholder_empty__";

/// Whether the name of a collection is reserved.
pub open spec fn reserved_collection(name: Seq<char>) -> bool {
    name == "__mdb_placeholder_empty__"@ || begins_with(name, "system."@)
}

/// Whether the name of a collection is reserved.
pub fn is_reserved_collection(name: &str) -> (r: bool)
    ensures
        r == reserved_collection(name@),
{
    same_text(name, "__mdb_placeholder_empty__") || starts_with(name, "system.")
}

/// What an operation asks to be done, in order.
#[derive(Debug)]
pub enum Effect {
    Unindex { doc: Json },
    Index { doc: Json },
    CacheDoc { id: String, doc: Json },
    UncacheDoc { id: String },
    DropIndexes,
    InvalidateDocs,
    Save,
    Emit { event: String, payload: Json },
}

/// What is asked to be done.
#[verifier::ext_equal]
pub enum EffectView {
    Unindex { doc: JsonView },
    Index { doc: JsonView },
    CacheDoc { id: Seq<char>, doc: JsonView },
    UncacheDoc { id: Seq<char> },
    DropIndexes,
    InvalidateDocs,
    Save,
    Emit { event: Seq<char>, payload: JsonView },
}

impl View for Effect {
    type V = EffectView;

    open spec fn view(&self) -> EffectView {
        match self {
            Effect::Unindex { doc } => EffectView::Unindex { doc: doc@ },
            Effect::Index { doc } => EffectView::Index { doc: doc@ },
            Effect::CacheDoc { id, doc } => EffectView::CacheDoc { id: id@, doc: doc@ },
            Effect::UncacheDoc { id } => EffectView::UncacheDoc { id: id@ },
            Effect::DropIndexes => EffectView::DropIndexes,
            Effect::InvalidateDocs => EffectView::InvalidateDocs,
            Effect::Save => EffectView::Save,
            Effect::Emit { event, payload } => EffectView::Emit {
                event: event@,
                payload: payload@,
            },
        }
    }
}

pub open spec fn effect_views(s: Seq<Effect>) -> Seq<EffectView> {
    s.map_values(|e: Effect| e@)
}

/// What an operation does: the documents that it leaves, what it asks to be
/// done, and its result.
#[derive(Debug)]
pub struct Outcome {
    pub docs: Vec<Json>,
    pub effects: Vec<Effect>,
    pub result: Json,
}

/// What an outcome is.
#[verifier::ext_equal]
pub struct OutcomeView {
    pub docs: Seq<JsonView>,
    pub effects: Seq<EffectView>,
    pub result: JsonView,
}

impl View for Outcome {
    type V = OutcomeView;

    open spec fn view(&self) -> OutcomeView {
        OutcomeView {
            docs: views(self.docs@),
            effects: effect_views(self.effects@),
            result: self.result@,
        }
    }
}

/// An outcome, or the text of an error.
pub open spec fn outcome_view(r: Result<Outcome, String>) -> Result<OutcomeView, Seq<char>> {
    match r {
        Ok(o) => Ok(o@),
        Err(e) => Err(e@),
    }
}

/// A count as a JSON number.
pub open spec fn count_value(n: nat) -> JsonView {
    JsonView::Number(Numeral::PosInt(n as u64))
}

/// The payload of the event that tells of a change to a collection.
pub open spec fn change_event(
    db: Seq<char>,
    collection: Seq<char>,
    before: JsonView,
    after: JsonView,
    summary: JsonView,
) -> JsonView {
    JsonView::Object(
        seq![
            ("database_name"@, JsonView::String(db)),
            ("collectionName"@, JsonView::String(collection)),
            ("before"@, before),
            ("after"@, after),
            ("summary"@, summary),
        ],
    )
}

fn push_effect(effects: &mut Vec<Effect>, e: Effect)
    ensures
        effect_views(final(effects)@) == effect_views(old(effects)@).push(e@),
{
    let ghost before = effect_views(effects@);
    let ghost x = e@;
    effects.push(e);
    assert(effect_views(effects@) == before.push(x));
}

fn no_effects() -> (r: Vec<Effect>)
    ensures
        effect_views(r@) == Seq::<EffectView>::empty(),
{
    let r: Vec<Effect> = Vec::new();
    assert(effect_views(r@) == Seq::<EffectView>::empty());
    r
}

fn push_event(
    effects: &mut Vec<Effect>,
    event: &str,
    db: &str,
    collection: &str,
    before: Json,
    after: Json,
    summary: Json,
)
    ensures
        effect_views(final(effects)@) == effect_views(old(effects)@).push(
            EffectView::Emit {
                event: event@,
                payload: change_event(db@, collection@, before@, after@, summary@),
            },
        ),
{
    let mut o = no_entries();
    put(&mut o, "database_name", text_value(db));
    put(&mut o, "collectionName", text_value(collection));
    put(&mut o, "before", before);
    put(&mut o, "after", after);
    put(&mut o, "summary", summary);
    let payload = Json::Object(o);
    assert(payload@->Object_0 == change_event(
        db@,
        collection@,
        before@,
        after@,
        summary@,
    )->Object_0);
    push_effect(effects, Effect::Emit { event: owned(event), payload });
}

/// What keeps a document: nothing where it has no id.
pub open spec fn caching(doc: JsonView) -> Seq<EffectView> {
    match doc_id_of(doc) {
        Some(id) => seq![EffectView::CacheDoc { id, doc }],
        None => Seq::empty(),
    }
}

/// What keeps the documents of a list.
pub open spec fn caching_all(docs: Seq<JsonView>) -> Seq<EffectView>
    decreases docs.len(),
{
    if docs.len() == 0 {
        Seq::empty()
    } else {
        caching_all(docs.drop_last()) + caching(docs.last())
    }
}

/// What stops keeping the documents of a list.
pub open spec fn uncaching_all(docs: Seq<JsonView>) -> Seq<EffectView>
    decreases docs.len(),
{
    if docs.len() == 0 {
        Seq::empty()
    } else {
        let head = uncaching_all(docs.drop_last());
        match doc_id_of(docs.last()) {
            Some(id) => head.push(EffectView::UncacheDoc { id }),
            None => head,
        }
    }
}

fn cache_doc(effects: &mut Vec<Effect>, doc: &Json)
    ensures
        effect_views(final(effects)@) == effect_views(old(effects)@) + caching(doc@),
{
    let ghost before = effect_views(effects@);
    match document_id(doc) {
        Some(id) => {
            push_effect(effects, Effect::CacheDoc { id, doc: doc.clone() });
            assert(effect_views(effects@) == before + caching(doc@));
        },
        None => {
            assert(before + Seq::<EffectView>::empty() == before);
        },
    }
}

fn cache_docs(effects: &mut Vec<Effect>, docs: &Vec<Json>)
    ensures
        effect_views(final(effects)@) == effect_views(old(effects)@) + caching_all(views(docs@)),
{
    let ghost before = effect_views(effects@);
    let ghost all = views(docs@);
    let mut i: usize = 0;
    assert(all.take(0) == Seq::<JsonView>::empty());
    assert(before + Seq::<EffectView>::empty() == before);
    while i < docs.len()
        invariant
            i <= docs@.len(),
            all == views(docs@),
            effect_views(effects@) == before + caching_all(all.take(i as int)),
        decreases docs@.len() - i,
    {
        assert(all.take(i + 1).drop_last() == all.take(i as int));
        assert(all.take(i + 1).last() == all[i as int]);
        cache_doc(effects, &docs[i]);
        assert(effect_views(effects@) == before + caching_all(all.take(i + 1)));
        i = i + 1;
    }
    assert(all.take(i as int) == all);
}

/// What keeps the documents of a list.
pub fn caching_effects(docs: &Vec<Json>) -> (r: Vec<Effect>)
    ensures
        effect_views(r@) == caching_all(views(docs@)),
{
    let mut effects = no_effects();
    cache_docs(&mut effects, docs);
    assert(Seq::<EffectView>::empty() + caching_all(views(docs@)) == caching_all(views(docs@)));
    effects
}

/// Where the first document stands that meets a condition, or their number.
pub open spec fn first_where(docs: Seq<JsonView>, p: spec_fn(JsonView) -> bool) -> nat
    decreases docs.len(),
{
    if docs.len() == 0 || p(docs[0]) {
        0
    } else {
        1 + first_where(docs.drop_first(), p)
    }
}

/// Where the first document stands that a filter selects, or their number.
pub open spec fn match_at(docs: Seq<JsonView>, filter: JsonView) -> nat {
    first_where(docs, |d: JsonView| selects(filter, d))
}

/// Where the first document stands that has an id, or their number.
pub open spec fn id_at(docs: Seq<JsonView>, id: JsonView) -> nat {
    first_where(docs, |d: JsonView| alike(field(d, "_id"@), Some(id)))
}

pub proof fn lemma_first_where(docs: Seq<JsonView>, p: spec_fn(JsonView) -> bool)
    ensures
        first_where(docs, p) <= docs.len(),
        first_where(docs, p) < docs.len() ==> p(docs[first_where(docs, p) as int]),
        forall|j: int| 0 <= j < first_where(docs, p) ==> !p(#[trigger] docs[j]),
    decreases docs.len(),
{
    if docs.len() > 0 && !p(docs[0]) {
        let d = docs.drop_first();
        lemma_first_where(d, p);
        assert forall|j: int| 0 <= j < first_where(docs, p) implies !p(#[trigger] docs[j]) by {
            if j > 0 {
                assert(d[j - 1] == docs[j]);
            }
        }
    }
}

proof fn lemma_first_where_is(docs: Seq<JsonView>, p: spec_fn(JsonView) -> bool, i: int)
    requires
        0 <= i <= docs.len(),
        i < docs.len() ==> p(docs[i]),
        forall|j: int| 0 <= j < i ==> !p(#[trigger] docs[j]),
    ensures
        first_where(docs, p) == i,
{
    lemma_first_where(docs, p);
}

fn find_match(docs: &Vec<Json>, filter: &Json) -> (r: usize)
    ensures
        r == match_at(views(docs@), filter@),
        r <= docs@.len(),
{
    let ghost all = views(docs@);
    let ghost p = |d: JsonView| selects(filter@, d);
    let mut i: usize = 0;
    while i < docs.len()
        invariant
            i <= docs@.len(),
            all == views(docs@),
            p == (|d: JsonView| selects(filter@, d)),
            forall|j: int| 0 <= j < i ==> !p(#[trigger] all[j]),
        decreases docs@.len() - i,
    {
        if match_filter(&docs[i], filter) {
            proof {
                assert(p(all[i as int]));
                lemma_first_where_is(all, p, i as int);
            }
            return i;
        }
        assert(!p(all[i as int]));
        i = i + 1;
    }
    proof {
        lemma_first_where_is(all, p, all.len() as int);
    }
    i
}

fn find_id(docs: &Vec<Json>, id: &Json) -> (r: usize)
    ensures
        r == id_at(views(docs@), id@),
        r <= docs@.len(),
{
    let ghost all = views(docs@);
    let ghost p = |d: JsonView| alike(field(d, "_id"@), Some(id@));
    let mut i: usize = 0;
    while i < docs.len()
        invariant
            i <= docs@.len(),
            all == views(docs@),
            p == (|d: JsonView| alike(field(d, "_id"@), Some(id@))),
            forall|j: int| 0 <= j < i ==> !p(#[trigger] all[j]),
        decreases docs@.len() - i,
    {
        if value_eq(docs[i].get("_id"), Some(id)) {
            proof {
                assert(p(all[i as int]));
                lemma_first_where_is(all, p, i as int);
            }
            return i;
        }
        assert(!p(all[i as int]));
        i = i + 1;
    }
    proof {
        lemma_first_where_is(all, p, all.len() as int);
    }
    i
}

/// Puts a document in the place of another.
fn replace_doc(docs: &mut Vec<Json>, i: usize, d: Json)
    requires
        i < old(docs)@.len(),
    ensures
        views(final(docs)@) == views(old(docs)@).update(i as int, d@),
{
    let ghost before = views(docs@);
    let ghost x = d@;
    docs.set(i, d);
    assert(views(docs@) == before.update(i as int, x));
}

/// Adds a document at the end.
fn push_doc(docs: &mut Vec<Json>, d: Json)
    ensures
        views(final(docs)@) == views(old(docs)@).push(d@),
{
    let ghost before = views(docs@);
    let ghost x = d@;
    docs.push(d);
    assert(views(docs@) == before.push(x));
}

/// The filter of a payload; without one every document is meant.
pub open spec fn filter_in(payload: JsonView) -> JsonView {
    match field(payload, "filter"@) {
        Some(f) => f,
        None => JsonView::Object(Seq::empty()),
    }
}

fn payload_filter(payload: &Json) -> (r: Json)
    ensures
        r@ == filter_in(payload@),
{
    match payload.get("filter") {
        Some(f) => f.clone(),
        None => empty_object(),
    }
}

/// Whether a payload asks for a new document where none is found.
pub open spec fn upsert_in(payload: JsonView) -> bool {
    let option = match field(payload, "options"@) {
        Some(o) => match field(o, "upsert"@) {
            Some(b) => bool_of(b),
            None => None,
        },
        None => None,
    };
    match option {
        Some(b) => b,
        None => match field(payload, "upsert"@) {
            Some(b) => bool_of(b) == Some(true),
            None => false,
        },
    }
}

fn payload_upsert(payload: &Json) -> (r: bool)
    ensures
        r == upsert_in(payload@),
{
    let option = match payload.get("options") {
        Some(o) => match o.get("upsert") {
            Some(b) => b.as_bool(),
            None => None,
        },
        None => None,
    };
    match option {
        Some(b) => b,
        None => match payload.get("upsert") {
            Some(b) => matches!(b.as_bool(), Some(true)),
            None => false,
        },
    }
}

/// A new document in the place of an old one: it keeps the old id.
pub open spec fn replaced(new: JsonView, old_doc: JsonView) -> JsonView {
    match (field(old_doc, "_id"@), new) {
        (Some(id), JsonView::Object(o)) => JsonView::Object(with_key(o, "_id"@, id)),
        _ => new,
    }
}

fn replacement_for(new: &Json, old_doc: &Json) -> (r: Json)
    ensures
        r@ == replaced(new@, old_doc@),
{
    let mut r = new.clone();
    match old_doc.get("_id") {
        Some(id) => {
            match &mut r {
                Json::Object(o) => {
                    set_entry(o, "_id", id.clone());
                },
                _ => {},
            }
        },
        None => {},
    }
    r
}

/// What an update makes of a document, and whether it counts as changed:
/// operators are applied, anything else takes its place.
pub open spec fn changed(update: JsonView, doc: JsonView) -> (JsonView, bool) {
    if is_operators(update) {
        (edited(update, doc).doc, edited(update, doc).modified)
    } else {
        (replaced(update, doc), true)
    }
}

fn change_doc(update: &Json, doc: &Json) -> (r: (Json, bool))
    ensures
        (r.0@, r.1) == changed(update@, doc@),
{
    if is_operator_object(update) {
        let mut d = doc.clone();
        let m = apply_update_operators(&mut d, update);
        (d, m)
    } else {
        (replacement_for(update, doc), true)
    }
}

/// The entries of a filter that ask for a value by equality.
pub open spec fn equalities(o: Seq<(Seq<char>, JsonView)>) -> Seq<(Seq<char>, JsonView)>
    decreases o.len(),
{
    if o.len() == 0 {
        o
    } else {
        let head = equalities(o.drop_last());
        if !begins_with(o.last().0, "$"@) && !is_operators(o.last().1) {
            with_key(head, o.last().0, o.last().1)
        } else {
            head
        }
    }
}

/// Entries with those of others added whose keys they do not have.
pub open spec fn defaulted(
    o: Seq<(Seq<char>, JsonView)>,
    more: Seq<(Seq<char>, JsonView)>,
) -> Seq<(Seq<char>, JsonView)>
    decreases more.len(),
{
    if more.len() == 0 {
        o
    } else {
        let head = defaulted(o, more.drop_last());
        if has_key(head, more.last().0) {
            head
        } else {
            head.push(more.last())
        }
    }
}

/// Entries with those of others set.
pub open spec fn overlaid(
    o: Seq<(Seq<char>, JsonView)>,
    more: Seq<(Seq<char>, JsonView)>,
) -> Seq<(Seq<char>, JsonView)>
    decreases more.len(),
{
    if more.len() == 0 {
        o
    } else {
        with_key(overlaid(o, more.drop_last()), more.last().0, more.last().1)
    }
}

/// The new document of an update that finds none: what the filter asks for by
/// equality, then what the update says.
pub open spec fn upserted(filter: JsonView, update: JsonView) -> JsonView {
    let base = match filter {
        JsonView::Object(o) => equalities(o),
        _ => Seq::empty(),
    };
    if is_operators(update) {
        let start = match field(update, "$setOnInsert"@) {
            Some(JsonView::Object(s)) => defaulted(base, s),
            _ => base,
        };
        edited(update, JsonView::Object(start)).doc
    } else {
        match update {
            JsonView::Object(u) => JsonView::Object(overlaid(base, u)),
            _ => JsonView::Object(base),
        }
    }
}

fn equality_entries(filter: &Json) -> (r: Vec<(String, Json)>)
    ensures
        entry_views(r@) == match filter@ {
            JsonView::Object(o) => equalities(o),
            _ => Seq::empty(),
        },
{
    let mut r = no_entries();
    if let Json::Object(o) = filter {
        let ghost e = entry_views(o@);
        let mut i: usize = 0;
        assert(e.take(0) == Seq::<(Seq<char>, JsonView)>::empty());
        while i < o.len()
            invariant
                i <= o@.len(),
                e == entry_views(o@),
                entry_views(r@) == equalities(e.take(i as int)),
            decreases o@.len() - i,
        {
            assert(e.take(i + 1).drop_last() == e.take(i as int));
            assert(e.take(i + 1).last() == e[i as int]);
            if !starts_with(o[i].0.as_str(), "$") && !is_operator_object(&o[i].1) {
                set_entry(&mut r, o[i].0.as_str(), o[i].1.clone());
            }
            i = i + 1;
        }
        assert(e.take(i as int) == e);
    }
    r
}

fn upserted_doc(filter: &Json, update: &Json) -> (r: Json)
    ensures
        r@ == upserted(filter@, update@),
{
    let mut base = equality_entries(filter);
    let ghost start = entry_views(base@);
    if is_operator_object(update) {
        if let Some(Json::Object(s)) = update.get("$setOnInsert") {
            let ghost e = entry_views(s@);
            let mut i: usize = 0;
            assert(e.take(0) == Seq::<(Seq<char>, JsonView)>::empty());
            while i < s.len()
                invariant
                    i <= s@.len(),
                    e == entry_views(s@),
                    entry_views(base@) == defaulted(start, e.take(i as int)),
                decreases s@.len() - i,
            {
                assert(e.take(i + 1).drop_last() == e.take(i as int));
                assert(e.take(i + 1).last() == e[i as int]);
                let at = key_index(&base, s[i].0.as_str());
                if at == base.len() {
                    put(&mut base, s[i].0.as_str(), s[i].1.clone());
                }
                i = i + 1;
            }
            assert(e.take(i as int) == e);
        }
        let mut doc = Json::Object(base);
        apply_update_operators(&mut doc, update);
        doc
    } else {
        if let Json::Object(u) = update {
            let ghost e = entry_views(u@);
            let mut i: usize = 0;
            assert(e.take(0) == Seq::<(Seq<char>, JsonView)>::empty());
            while i < u.len()
                invariant
                    i <= u@.len(),
                    e == entry_views(u@),
                    entry_views(base@) == overlaid(start, e.take(i as int)),
                decreases u@.len() - i,
            {
                assert(e.take(i + 1).drop_last() == e.take(i as int));
                assert(e.take(i + 1).last() == e[i as int]);
                set_entry(&mut base, u[i].0.as_str(), u[i].1.clone());
                i = i + 1;
            }
            assert(e.take(i as int) == e);
        }
        Json::Object(base)
    }
}

/// A change to at most one document of a list.
#[derive(Debug)]
pub struct Change {
    pub docs: Vec<Json>,
    pub effects: Vec<Effect>,
    pub matched: u64,
    pub modified: u64,
    pub upserted: u64,
    pub upserted_id: Json,
    pub before: Json,
    pub after: Json,
}

/// What a change to at most one document is.
#[verifier::ext_equal]
pub struct ChangeView {
    pub docs: Seq<JsonView>,
    pub effects: Seq<EffectView>,
    pub matched: u64,
    pub modified: u64,
    pub upserted: u64,
    pub upserted_id: JsonView,
    pub before: JsonView,
    pub after: JsonView,
}

impl View for Change {
    type V = ChangeView;

    open spec fn view(&self) -> ChangeView {
        ChangeView {
            docs: views(self.docs@),
            effects: effect_views(self.effects@),
            matched: self.matched,
            modified: self.modified,
            upserted: self.upserted,
            upserted_id: self.upserted_id@,
            before: self.before@,
            after: self.after@,
        }
    }
}

/// The change that puts a document in the place of another.
pub open spec fn change_at(
    docs: Seq<JsonView>,
    i: int,
    new: JsonView,
    modified: bool,
) -> ChangeView {
    ChangeView {
        docs: docs.update(i, new),
        effects: seq![EffectView::Unindex { doc: docs[i] }, EffectView::Index { doc: new }]
            + caching(new),
        matched: 1,
        modified: if modified {
            1
        } else {
            0
        },
        upserted: 0,
        upserted_id: JsonView::Null,
        before: docs[i],
        after: new,
    }
}

/// The id of a document, or null.
pub open spec fn id_or_null(doc: JsonView) -> JsonView {
    match field(doc, "_id"@) {
        Some(id) => id,
        None => JsonView::Null,
    }
}

/// The change that adds a document.
pub open spec fn change_adding(docs: Seq<JsonView>, new: JsonView) -> ChangeView {
    ChangeView {
        docs: docs.push(new),
        effects: seq![EffectView::Index { doc: new }] + caching(new),
        matched: 0,
        modified: 0,
        upserted: 1,
        upserted_id: id_or_null(new),
        before: JsonView::Null,
        after: new,
    }
}

/// The change that changes nothing.
pub open spec fn no_change(docs: Seq<JsonView>) -> ChangeView {
    ChangeView {
        docs,
        effects: Seq::empty(),
        matched: 0,
        modified: 0,
        upserted: 0,
        upserted_id: JsonView::Null,
        before: JsonView::Null,
        after: JsonView::Null,
    }
}

/// What updating the first document does that a filter selects.
pub open spec fn update_first(
    filter: JsonView,
    update: JsonView,
    upsert: bool,
    docs: Seq<JsonView>,
) -> ChangeView {
    let i = match_at(docs, filter);
    if i < docs.len() {
        let c = changed(update, docs[i as int]);
        change_at(docs, i as int, c.0, c.1)
    } else if upsert {
        change_adding(docs, upserted(filter, update))
    } else {
        no_change(docs)
    }
}

/// What replacing the first document does that a filter selects.
pub open spec fn replace_first(
    filter: JsonView,
    new: JsonView,
    upsert: bool,
    docs: Seq<JsonView>,
) -> ChangeView {
    let i = match_at(docs, filter);
    if i < docs.len() {
        change_at(docs, i as int, replaced(new, docs[i as int]), true)
    } else if upsert {
        change_adding(docs, new)
    } else {
        no_change(docs)
    }
}

fn make_change_at(docs: Vec<Json>, i: usize, new: Json, modified: bool) -> (r: Change)
    requires
        i < docs@.len(),
    ensures
        r@ == change_at(views(docs@), i as int, new@, modified),
{
    let ghost start = views(docs@);
    let mut docs = docs;
    let before = docs[i].clone();
    let mut effects = no_effects();
    push_effect(&mut effects, Effect::Unindex { doc: docs[i].clone() });
    push_effect(&mut effects, Effect::Index { doc: new.clone() });
    assert(effect_views(effects@) == seq![
        EffectView::Unindex { doc: start[i as int] },
        EffectView::Index { doc: new@ },
    ]);
    cache_doc(&mut effects, &new);
    let after = new.clone();
    replace_doc(&mut docs, i, new);
    Change {
        docs,
        effects,
        matched: 1,
        modified: if modified {
            1
        } else {
            0
        },
        upserted: 0,
        upserted_id: Json::Null,
        before,
        after,
    }
}

fn json_or_null(v: Option<&Json>) -> (r: Json)
    ensures
        r@ == match opt_view(v) {
            Some(x) => x,
            None => JsonView::Null,
        },
{
    match v {
        Some(x) => x.clone(),
        None => Json::Null,
    }
}

fn make_change_adding(docs: Vec<Json>, new: Json) -> (r: Change)
    ensures
        r@ == change_adding(views(docs@), new@),
{
    let mut docs = docs;
    let mut effects = no_effects();
    push_effect(&mut effects, Effect::Index { doc: new.clone() });
    assert(effect_views(effects@) == seq![EffectView::Index { doc: new@ }]);
    cache_doc(&mut effects, &new);
    let upserted_id = json_or_null(new.get("_id"));
    let after = new.clone();
    push_doc(&mut docs, new);
    Change {
        docs,
        effects,
        matched: 0,
        modified: 0,
        upserted: 1,
        upserted_id,
        before: Json::Null,
        after,
    }
}

fn make_no_change(docs: Vec<Json>) -> (r: Change)
    ensures
        r@ == no_change(views(docs@)),
{
    Change {
        docs,
        effects: no_effects(),
        matched: 0,
        modified: 0,
        upserted: 0,
        upserted_id: Json::Null,
        before: Json::Null,
        after: Json::Null,
    }
}

fn update_one(filter: &Json, update: &Json, upsert: bool, docs: Vec<Json>) -> (r: Change)
    ensures
        r@ == update_first(filter@, update@, upsert, views(docs@)),
{
    let i = find_match(&docs, filter);
    if i < docs.len() {
        let (new, modified) = change_doc(update, &docs[i]);
        make_change_at(docs, i, new, modified)
    } else if upsert {
        make_change_adding(docs, upserted_doc(filter, update))
    } else {
        make_no_change(docs)
    }
}

fn replace_one(filter: &Json, new: &Json, upsert: bool, docs: Vec<Json>) -> (r: Change)
    ensures
        r@ == replace_first(filter@, new@, upsert, views(docs@)),
{
    let i = find_match(&docs, filter);
    if i < docs.len() {
        let n = replacement_for(new, &docs[i]);
        make_change_at(docs, i, n, true)
    } else if upsert {
        make_change_adding(docs, new.clone())
    } else {
        make_no_change(docs)
    }
}

/// The summary of a change to at most one document.
pub open spec fn change_summary(c: ChangeView) -> JsonView {
    JsonView::Object(
        seq![
            ("matchedCount"@, count_value(c.matched as nat)),
            ("modifiedCount"@, count_value(c.modified as nat)),
            ("upsertedCount"@, count_value(c.upserted as nat)),
            ("upsertedId"@, c.upserted_id),
        ],
    )
}

/// The result of a change to at most one document.
pub open spec fn change_result(c: ChangeView) -> JsonView {
    JsonView::Object(
        seq![("acknowledged"@, JsonView::Bool(true))] + change_summary(c)->Object_0,
    )
}

/// What a change to at most one document comes to: it is saved and told of
/// where a document was found or added.
pub open spec fn change_outcome(
    db: Seq<char>,
    collection: Seq<char>,
    event: Seq<char>,
    c: ChangeView,
) -> OutcomeView {
    OutcomeView {
        docs: c.docs,
        effects: c.effects + if c.matched > 0 || c.upserted > 0 {
            seq![
                EffectView::Save,
                EffectView::Emit {
                    event,
                    payload: change_event(db, collection, c.before, c.after, change_summary(c)),
                },
            ]
        } else {
            Seq::empty()
        },
        result: change_result(c),
    }
}

fn summary_entries(o: &mut Vec<(String, Json)>, c: &Change)
    ensures
        entry_views(final(o)@) == entry_views(old(o)@) + change_summary(c@)->Object_0,
{
    let ghost before = entry_views(o@);
    put(o, "matchedCount", nat_value(c.matched));
    put(o, "modifiedCount", nat_value(c.modified));
    put(o, "upsertedCount", nat_value(c.upserted));
    put(o, "upsertedId", c.upserted_id.clone());
    assert(entry_views(o@) == before + change_summary(c@)->Object_0);
}

fn finish_change(db: &str, collection: &str, event: &str, c: Change) -> (r: Outcome)
    ensures
        r@ == change_outcome(db@, collection@, event@, c@),
{
    let mut s = no_entries();
    summary_entries(&mut s, &c);
    let summary = Json::Object(s);
    assert(summary@->Object_0 == change_summary(c@)->Object_0);
    let mut o = no_entries();
    put(&mut o, "acknowledged", Json::Bool(true));
    summary_entries(&mut o, &c);
    let result = Json::Object(o);
    assert(result@->Object_0 == change_result(c@)->Object_0);
    let had_change = c.matched > 0 || c.upserted > 0;
    let ghost cv = c@;
    let mut effects = c.effects;
    if had_change {
        push_effect(&mut effects, Effect::Save);
        push_event(&mut effects, event, db, collection, c.before, c.after, summary);
        assert(effect_views(effects@) == change_outcome(
            db@,
            collection@,
            event@,
            cv,
        ).effects);
    } else {
        assert(cv.effects + Seq::<EffectView>::empty() == cv.effects);
    }
    Outcome { docs: c.docs, effects, result }
}

/// The error that something is missing.
pub open spec fn missing(what: Seq<char>) -> Seq<char> {
    what + " is required"@
}

/// What inserting a document does.
pub open spec fn insert_outcome(
    db: Seq<char>,
    collection: Seq<char>,
    payload: JsonView,
    docs: Seq<JsonView>,
) -> Result<OutcomeView, Seq<char>> {
    match field(payload, "document"@) {
        Some(doc) => Ok(
            OutcomeView {
                docs: docs.push(doc),
                effects: seq![EffectView::Save, EffectView::Index { doc }] + caching(doc) + seq![
                    EffectView::Emit {
                        event: "insertOne"@,
                        payload: change_event(
                            db,
                            collection,
                            JsonView::Null,
                            doc,
                            JsonView::Object(seq![("insertedId"@, id_or_null(doc))]),
                        ),
                    },
                ],
                result: JsonView::Object(
                    seq![
                        ("acknowledged"@, JsonView::Bool(true)),
                        ("insertedId"@, id_or_null(doc)),
                    ],
                ),
            },
        ),
        None => Err(missing("document"@)),
    }
}

fn required(what: &str) -> (r: String)
    ensures
        r@ == missing(what@),
{
    cat(what, " is required")
}

fn insert_one(db: &str, collection: &str, payload: &Json, docs: Vec<Json>) -> (r: Result<
    Outcome,
    String,
>)
    ensures
        outcome_view(r) == insert_outcome(db@, collection@, payload@, views(docs@)),
{
    match payload.get("document") {
        Some(doc) => {
            let mut docs = docs;
            push_doc(&mut docs, doc.clone());
            let id = json_or_null(doc.get("_id"));
            let mut effects = no_effects();
            push_effect(&mut effects, Effect::Save);
            push_effect(&mut effects, Effect::Index { doc: doc.clone() });
            assert(effect_views(effects@) == seq![
                EffectView::Save,
                EffectView::Index { doc: doc@ },
            ]);
            cache_doc(&mut effects, doc);
            let mut s = no_entries();
            put(&mut s, "insertedId", id.clone());
            let summary = Json::Object(s);
            assert(summary@->Object_0 == seq![("insertedId"@, id@)]);
            push_event(
                &mut effects,
                "insertOne",
                db,
                collection,
                Json::Null,
                doc.clone(),
                summary,
            );
            let mut o = no_entries();
            put(&mut o, "acknowledged", Json::Bool(true));
            put(&mut o, "insertedId", id);
            let r = Outcome { docs, effects, result: Json::Object(o) };
            proof {
                let want = insert_outcome(
                    db@,
                    collection@,
                    payload@,
                    views(docs@).drop_last(),
                )->Ok_0;
                assert(views(docs@) == views(docs@).drop_last().push(doc@));
                assert(r@.result->Object_0 == want.result->Object_0);
                assert(r@.effects == want.effects);
            }
            Ok(r)
        },
        None => Err(required("document")),
    }
}

/// What deleting the first document does that a filter selects.
pub open spec fn delete_one_outcome(
    db: Seq<char>,
    collection: Seq<char>,
    payload: JsonView,
    docs: Seq<JsonView>,
) -> OutcomeView {
    let i = match_at(docs, filter_in(payload)) as int;
    if i < docs.len() {
        let d = docs[i];
        OutcomeView {
            docs: docs.remove(i),
            effects: seq![EffectView::Unindex { doc: d }] + uncaching_all(seq![d]) + seq![
                EffectView::Save,
                EffectView::Emit {
                    event: "deleteOne"@,
                    payload: change_event(
                        db,
                        collection,
                        d,
                        JsonView::Null,
                        JsonView::Object(seq![("deletedCount"@, count_value(1))]),
                    ),
                },
            ],
            result: deleted_result(1),
        }
    } else {
        OutcomeView { docs, effects: Seq::empty(), result: deleted_result(0) }
    }
}

/// The result of deleting some documents.
pub open spec fn deleted_result(n: nat) -> JsonView {
    JsonView::Object(
        seq![("acknowledged"@, JsonView::Bool(true)), ("deletedCount"@, count_value(n))],
    )
}

fn deleted_value(n: u64) -> (r: Json)
    ensures
        r@ == deleted_result(n as nat),
{
    let mut o = no_entries();
    put(&mut o, "acknowledged", Json::Bool(true));
    put(&mut o, "deletedCount", nat_value(n));
    let r = Json::Object(o);
    assert(r@->Object_0 == deleted_result(n as nat)->Object_0);
    r
}

fn deleted_summary(n: u64) -> (r: Json)
    ensures
        r@ == JsonView::Object(seq![("deletedCount"@, count_value(n as nat))]),
{
    let mut o = no_entries();
    put(&mut o, "deletedCount", nat_value(n));
    let r = Json::Object(o);
    assert(r@->Object_0 == seq![("deletedCount"@, count_value(n as nat))]);
    r
}

fn uncache_docs(effects: &mut Vec<Effect>, docs: &Vec<Json>)
    ensures
        effect_views(final(effects)@) == effect_views(old(effects)@) + uncaching_all(views(docs@)),
{
    let ghost before = effect_views(effects@);
    let ghost all = views(docs@);
    let mut i: usize = 0;
    assert(all.take(0) == Seq::<JsonView>::empty());
    assert(before + Seq::<EffectView>::empty() == before);
    while i < docs.len()
        invariant
            i <= docs@.len(),
            all == views(docs@),
            effect_views(effects@) == before + uncaching_all(all.take(i as int)),
        decreases docs@.len() - i,
    {
        assert(all.take(i + 1).drop_last() == all.take(i as int));
        assert(all.take(i + 1).last() == all[i as int]);
        match document_id(&docs[i]) {
            Some(id) => push_effect(effects, Effect::UncacheDoc { id }),
            None => {},
        }
        assert(effect_views(effects@) == before + uncaching_all(all.take(i + 1)));
        i = i + 1;
    }
    assert(all.take(i as int) == all);
}

fn delete_one(db: &str, collection: &str, payload: &Json, docs: Vec<Json>) -> (r: Outcome)
    ensures
        r@ == delete_one_outcome(db@, collection@, payload@, views(docs@)),
{
    let filter = payload_filter(payload);
    let i = find_match(&docs, &filter);
    if i < docs.len() {
        let ghost start = views(docs@);
        let mut docs = docs;
        let d = docs.remove(i);
        assert(d@ == start[i as int]);
        assert(views(docs@) == start.remove(i as int));
        let mut effects = no_effects();
        push_effect(&mut effects, Effect::Unindex { doc: d.clone() });
        let mut gone: Vec<Json> = Vec::new();
        gone.push(d.clone());
        assert(views(gone@) == seq![d@]);
        uncache_docs(&mut effects, &gone);
        push_effect(&mut effects, Effect::Save);
        push_event(
            &mut effects,
            "deleteOne",
            db,
            collection,
            d,
            Json::Null,
            deleted_summary(1),
        );
        let r = Outcome { docs, effects, result: deleted_value(1) };
        assert(r@.effects == delete_one_outcome(db@, collection@, payload@, start).effects);
        r
    } else {
        Outcome { docs, effects: no_effects(), result: deleted_value(0) }
    }
}

/// The documents that a filter does not select, in the order in which they
/// stand.
pub open spec fn remaining(filter: JsonView, docs: Seq<JsonView>) -> Seq<JsonView>
    decreases docs.len(),
{
    if docs.len() == 0 {
        docs
    } else {
        let head = remaining(filter, docs.drop_last());
        if selects(filter, docs.last()) {
            head
        } else {
            head.push(docs.last())
        }
    }
}

/// What takes the documents of a list out of their index.
pub open spec fn unindexing_all(docs: Seq<JsonView>) -> Seq<EffectView> {
    docs.map_values(|d: JsonView| EffectView::Unindex { doc: d })
}

/// What indexes the documents of a list.
pub open spec fn indexing_all(docs: Seq<JsonView>) -> Seq<EffectView> {
    docs.map_values(|d: JsonView| EffectView::Index { doc: d })
}

/// What deleting all documents does that a filter selects.
pub open spec fn delete_many_outcome(
    db: Seq<char>,
    collection: Seq<char>,
    payload: JsonView,
    docs: Seq<JsonView>,
) -> OutcomeView {
    let gone = matching(filter_in(payload), docs);
    OutcomeView {
        docs: remaining(filter_in(payload), docs),
        effects: unindexing_all(gone) + uncaching_all(gone) + if gone.len() > 0 {
            seq![
                EffectView::Save,
                EffectView::Emit {
                    event: "deleteMany"@,
                    payload: change_event(
                        db,
                        collection,
                        JsonView::Array(gone),
                        JsonView::Null,
                        JsonView::Object(seq![("deletedCount"@, count_value(gone.len()))]),
                    ),
                },
            ]
        } else {
            Seq::empty()
        },
        result: deleted_result(gone.len()),
    }
}

fn unindex_docs(effects: &mut Vec<Effect>, docs: &Vec<Json>)
    ensures
        effect_views(final(effects)@) == effect_views(old(effects)@) + unindexing_all(
            views(docs@),
        ),
{
    let ghost before = effect_views(effects@);
    let ghost all = unindexing_all(views(docs@));
    let mut i: usize = 0;
    assert(before + all.take(0) == before);
    while i < docs.len()
        invariant
            i <= docs@.len(),
            all == unindexing_all(views(docs@)),
            effect_views(effects@) == before + all.take(i as int),
        decreases docs@.len() - i,
    {
        push_effect(effects, Effect::Unindex { doc: docs[i].clone() });
        assert(before + all.take(i + 1) == (before + all.take(i as int)).push(all[i as int]));
        i = i + 1;
    }
    assert(all.take(i as int) == all);
}

fn index_docs(effects: &mut Vec<Effect>, docs: &Vec<Json>)
    ensures
        effect_views(final(effects)@) == effect_views(old(effects)@) + indexing_all(views(docs@)),
{
    let ghost before = effect_views(effects@);
    let ghost all = indexing_all(views(docs@));
    let mut i: usize = 0;
    assert(before + all.take(0) == before);
    while i < docs.len()
        invariant
            i <= docs@.len(),
            all == indexing_all(views(docs@)),
            effect_views(effects@) == before + all.take(i as int),
        decreases docs@.len() - i,
    {
        push_effect(effects, Effect::Index { doc: docs[i].clone() });
        assert(before + all.take(i + 1) == (before + all.take(i as int)).push(all[i as int]));
        i = i + 1;
    }
    assert(all.take(i as int) == all);
}

fn remaining_docs(docs: Vec<Json>, filter: &Json) -> (r: Vec<Json>)
    ensures
        views(r@) == remaining(filter@, views(docs@)),
{
    let ghost all = views(docs@);
    let mut r: Vec<Json> = Vec::new();
    let mut i: usize = 0;
    assert(views(r@) == all.take(0));
    while i < docs.len()
        invariant
            i <= docs@.len(),
            all == views(docs@),
            views(r@) == remaining(filter@, all.take(i as int)),
        decreases docs@.len() - i,
    {
        assert(all.take(i + 1).drop_last() == all.take(i as int));
        assert(all.take(i + 1).last() == all[i as int]);
        if !match_filter(&docs[i], filter) {
            push_doc(&mut r, docs[i].clone());
        }
        i = i + 1;
    }
    assert(all.take(i as int) == all);
    r
}

fn delete_many(db: &str, collection: &str, payload: &Json, docs: Vec<Json>) -> (r: Outcome)
    ensures
        r@ == delete_many_outcome(db@, collection@, payload@, views(docs@)),
{
    let ghost start = views(docs@);
    let filter = payload_filter(payload);
    let gone = matching_docs(&docs, &filter);
    let left = remaining_docs(docs, &filter);
    let mut effects = no_effects();
    unindex_docs(&mut effects, &gone);
    uncache_docs(&mut effects, &gone);
    let n = gone.len() as u64;
    if n > 0 {
        push_effect(&mut effects, Effect::Save);
        push_event(
            &mut effects,
            "deleteMany",
            db,
            collection,
            Json::Array(gone),
            Json::Null,
            deleted_summary(n),
        );
    }
    let r = Outcome { docs: left, effects, result: deleted_value(n) };
    assert(r@.effects == delete_many_outcome(db@, collection@, payload@, start).effects);
    r
}

/// Deleting what a filter selects leaves no document that it selects, and every
/// other one.
pub proof fn lemma_remaining(filter: JsonView, docs: Seq<JsonView>)
    ensures
        remaining(filter, docs).len() + matching(filter, docs).len() == docs.len(),
        matching(filter, remaining(filter, docs)).len() == 0,
        forall|d: JsonView| #[trigger]
            remaining(filter, docs).contains(d) <==> docs.contains(d) && !selects(filter, d),
    decreases docs.len(),
{
    if docs.len() > 0 {
        let rest = docs.drop_last();
        let head = remaining(filter, rest);
        let r = remaining(filter, docs);
        lemma_remaining(filter, rest);
        assert(r == if selects(filter, docs.last()) {
            head
        } else {
            head.push(docs.last())
        });
        if !selects(filter, docs.last()) {
            assert(r.drop_last() == head);
        }
        assert forall|d: JsonView| #[trigger] r.contains(d) <==> docs.contains(d) && !selects(
            filter,
            d,
        ) by {
            if r.contains(d) {
                let i = choose|i: int| 0 <= i < r.len() && r[i] == d;
                if i < head.len() {
                    assert(head[i] == d);
                    assert(head.contains(d));
                    let j = choose|j: int| 0 <= j < rest.len() && rest[j] == d;
                    assert(docs[j] == d);
                } else {
                    assert(docs[docs.len() - 1] == d);
                }
            }
            if docs.contains(d) && !selects(filter, d) {
                let i = choose|i: int| 0 <= i < docs.len() && docs[i] == d;
                if i < rest.len() {
                    assert(rest[i] == d);
                    assert(rest.contains(d));
                    assert(head.contains(d));
                    let j = choose|j: int| 0 <= j < head.len() && head[j] == d;
                    assert(r[j] == d);
                } else {
                    assert(r[head.len() as int] == d);
                }
            }
        }
    }
}

/// Many documents put into a list, one after the other.
#[verifier::ext_equal]
pub struct BulkView {
    pub docs: Seq<JsonView>,
    pub effects: Seq<EffectView>,
    pub inserted: nat,
    pub modified: nat,
}

/// Puts one document into a list: in the place of the one that has its id, or
/// at the end.  What is no object is passed over.
pub open spec fn bulk_step(b: BulkView, raw: JsonView) -> BulkView {
    if !(raw is Object) {
        b
    } else {
        let i = match field(raw, "_id"@) {
            Some(id) => id_at(b.docs, id),
            None => b.docs.len(),
        };
        if i < b.docs.len() {
            BulkView {
                docs: b.docs.update(i as int, raw),
                effects: b.effects + (seq![
                    EffectView::Unindex { doc: b.docs[i as int] },
                    EffectView::Index { doc: raw },
                ] + caching(raw)),
                inserted: b.inserted,
                modified: b.modified + 1,
            }
        } else {
            BulkView {
                docs: b.docs.push(raw),
                effects: b.effects + (seq![EffectView::Index { doc: raw }] + caching(raw)),
                inserted: b.inserted + 1,
                modified: b.modified,
            }
        }
    }
}

/// Puts the documents of one list into another.
pub open spec fn bulk(docs: Seq<JsonView>, data: Seq<JsonView>) -> BulkView
    decreases data.len(),
{
    if data.len() == 0 {
        BulkView { docs, effects: Seq::empty(), inserted: 0, modified: 0 }
    } else {
        bulk_step(bulk(docs, data.drop_last()), data.last())
    }
}

/// Many documents put into a list.
pub struct Bulk {
    pub docs: Vec<Json>,
    pub effects: Vec<Effect>,
    pub inserted: u64,
    pub modified: u64,
}

impl View for Bulk {
    type V = BulkView;

    open spec fn view(&self) -> BulkView {
        BulkView {
            docs: views(self.docs@),
            effects: effect_views(self.effects@),
            inserted: self.inserted as nat,
            modified: self.modified as nat,
        }
    }
}

/// Puts the documents of one list into another.
pub fn put_all(docs: Vec<Json>, data: &Vec<Json>) -> (r: Bulk)
    ensures
        r@ == bulk(views(docs@), views(data@)),
        r.inserted + r.modified <= data@.len(),
{
    let ghost start = views(docs@);
    let ghost all = views(data@);
    let mut docs = docs;
    let mut effects = no_effects();
    let mut inserted: u64 = 0;
    let mut modified: u64 = 0;
    let mut n: usize = 0;
    assert(all.take(0) == Seq::<JsonView>::empty());
    while n < data.len()
        invariant
            n <= data@.len(),
            all == views(data@),
            (BulkView {
                docs: views(docs@),
                effects: effect_views(effects@),
                inserted: inserted as nat,
                modified: modified as nat,
            }) == bulk(start, all.take(n as int)),
            inserted + modified <= n,
        decreases data@.len() - n,
    {
        assert(all.take(n + 1).drop_last() == all.take(n as int));
        assert(all.take(n + 1).last() == all[n as int]);
        let raw = &data[n];
        let ghost now = effect_views(effects@);
        if raw.is_object() {
            let i = match raw.get("_id") {
                Some(id) => find_id(&docs, id),
                None => docs.len(),
            };
            let ghost more;
            if i < docs.len() {
                proof {
                    more = seq![
                        EffectView::Unindex { doc: views(docs@)[i as int] },
                        EffectView::Index { doc: raw@ },
                    ] + caching(raw@);
                }
                push_effect(&mut effects, Effect::Unindex { doc: docs[i].clone() });
                push_effect(&mut effects, Effect::Index { doc: raw.clone() });
                replace_doc(&mut docs, i, raw.clone());
                modified = modified + 1;
            } else {
                proof {
                    more = seq![EffectView::Index { doc: raw@ }] + caching(raw@);
                }
                push_doc(&mut docs, raw.clone());
                push_effect(&mut effects, Effect::Index { doc: raw.clone() });
                inserted = inserted + 1;
            }
            cache_doc(&mut effects, raw);
            assert(effect_views(effects@) == now + more);
        }
        n = n + 1;
    }
    assert(all.take(n as int) == all);
    Bulk { docs, effects, inserted, modified }
}

/// An update of every document of a list that a filter selects.
#[verifier::ext_equal]
pub struct SweepView {
    pub docs: Seq<JsonView>,
    pub effects: Seq<EffectView>,
    pub matched: nat,
    pub modified: nat,
}

/// Updates every document of a list that a filter selects.
pub open spec fn sweep(filter: JsonView, update: JsonView, docs: Seq<JsonView>) -> SweepView
    decreases docs.len(),
{
    if docs.len() == 0 {
        SweepView { docs, effects: Seq::empty(), matched: 0, modified: 0 }
    } else {
        let s = sweep(filter, update, docs.drop_last());
        let d = docs.last();
        if selects(filter, d) {
            let c = changed(update, d);
            SweepView {
                docs: s.docs.push(c.0),
                effects: s.effects + (seq![
                    EffectView::Unindex { doc: d },
                    EffectView::Index { doc: c.0 },
                ] + caching(c.0)),
                matched: s.matched + 1,
                modified: s.modified + if c.1 {
                    1nat
                } else {
                    0nat
                },
            }
        } else {
            SweepView { docs: s.docs.push(d), ..s }
        }
    }
}

/// An update of every document of a list that a filter selects.
struct Sweep {
    docs: Vec<Json>,
    effects: Vec<Effect>,
    matched: u64,
    modified: u64,
}

fn sweep_docs(filter: &Json, update: &Json, docs: &Vec<Json>) -> (r: Sweep)
    ensures
        (SweepView {
            docs: views(r.docs@),
            effects: effect_views(r.effects@),
            matched: r.matched as nat,
            modified: r.modified as nat,
        }) == sweep(filter@, update@, views(docs@)),
{
    let ghost all = views(docs@);
    let mut out: Vec<Json> = Vec::new();
    let mut effects = no_effects();
    let mut matched: u64 = 0;
    let mut modified: u64 = 0;
    let mut i: usize = 0;
    assert(views(out@) == all.take(0));
    while i < docs.len()
        invariant
            i <= docs@.len(),
            all == views(docs@),
            (SweepView {
                docs: views(out@),
                effects: effect_views(effects@),
                matched: matched as nat,
                modified: modified as nat,
            }) == sweep(filter@, update@, all.take(i as int)),
            matched <= i,
            modified <= i,
        decreases docs@.len() - i,
    {
        assert(all.take(i + 1).drop_last() == all.take(i as int));
        assert(all.take(i + 1).last() == all[i as int]);
        if match_filter(&docs[i], filter) {
            let ghost now = effect_views(effects@);
            let (new, m) = change_doc(update, &docs[i]);
            let ghost more = seq![
                EffectView::Unindex { doc: all[i as int] },
                EffectView::Index { doc: new@ },
            ] + caching(new@);
            push_effect(&mut effects, Effect::Unindex { doc: docs[i].clone() });
            push_effect(&mut effects, Effect::Index { doc: new.clone() });
            cache_doc(&mut effects, &new);
            assert(effect_views(effects@) == now + more);
            push_doc(&mut out, new);
            matched = matched + 1;
            if m {
                modified = modified + 1;
            }
        } else {
            push_doc(&mut out, docs[i].clone());
        }
        i = i + 1;
    }
    assert(all.take(i as int) == all);
    Sweep { docs: out, effects, matched, modified }
}

/// Updates of single documents, one after the other.
#[verifier::ext_equal]
pub struct BatchView {
    pub docs: Seq<JsonView>,
    pub effects: Seq<EffectView>,
    pub matched: nat,
    pub modified: nat,
    pub upserted: nat,
}

/// Does one update, of the first document that its filter selects; without an
/// update it is an error.
pub open spec fn batch_step(b: BatchView, item: JsonView) -> Result<BatchView, Seq<char>> {
    match field(item, "update"@) {
        Some(update) => {
            let c = update_first(filter_in(item), update, upsert_in(item), b.docs);
            Ok(
                BatchView {
                    docs: c.docs,
                    effects: b.effects + c.effects,
                    matched: b.matched + c.matched as nat,
                    modified: b.modified + c.modified as nat,
                    upserted: b.upserted + c.upserted as nat,
                },
            )
        },
        None => Err(missing("update"@)),
    }
}

/// Does the updates of a list, one after the other, up to the first error.
pub open spec fn batch(docs: Seq<JsonView>, updates: Seq<JsonView>) -> Result<
    BatchView,
    Seq<char>,
>
    decreases updates.len(),
{
    if updates.len() == 0 {
        Ok(BatchView { docs, effects: Seq::empty(), matched: 0, modified: 0, upserted: 0 })
    } else {
        match batch(docs, updates.drop_last()) {
            Ok(b) => batch_step(b, updates.last()),
            Err(e) => Err(e),
        }
    }
}

/// Updates of single documents.
struct Batch {
    docs: Vec<Json>,
    effects: Vec<Effect>,
    matched: u64,
    modified: u64,
    upserted: u64,
}

impl View for Batch {
    type V = BatchView;

    closed spec fn view(&self) -> BatchView {
        BatchView {
            docs: views(self.docs@),
            effects: effect_views(self.effects@),
            matched: self.matched as nat,
            modified: self.modified as nat,
            upserted: self.upserted as nat,
        }
    }
}

fn update_item(b: Batch, item: &Json) -> (r: Result<Batch, String>)
    requires
        b.matched < u64::MAX,
        b.modified < u64::MAX,
        b.upserted < u64::MAX,
    ensures
        match r {
            Ok(n) => batch_step(b@, item@) == Ok::<BatchView, Seq<char>>(n@) && n.matched
                <= b.matched + 1 && n.modified <= b.modified + 1 && n.upserted <= b.upserted + 1,
            Err(e) => batch_step(b@, item@) == Err::<BatchView, Seq<char>>(e@),
        },
{
    match item.get("update") {
        Some(update) => {
            let filter = payload_filter(item);
            let ghost now = effect_views(b.effects@);
            let mut effects = b.effects;
            let mut c = update_one(&filter, update, payload_upsert(item), b.docs);
            let ghost cv = c@;
            effects.append(&mut c.effects);
            assert(effect_views(effects@) == now + cv.effects);
            Ok(
                Batch {
                    docs: c.docs,
                    effects,
                    matched: b.matched + c.matched,
                    modified: b.modified + c.modified,
                    upserted: b.upserted + c.upserted,
                },
            )
        },
        None => Err(required("update")),
    }
}

fn update_batch(docs: Vec<Json>, updates: &Vec<Json>) -> (r: Result<Batch, String>)
    ensures
        match r {
            Ok(b) => batch(views(docs@), views(updates@)) == Ok::<BatchView, Seq<char>>(b@),
            Err(e) => batch(views(docs@), views(updates@)) == Err::<BatchView, Seq<char>>(e@),
        },
{
    let ghost start = views(docs@);
    let ghost all = views(updates@);
    let mut b = Batch { docs, effects: no_effects(), matched: 0, modified: 0, upserted: 0 };
    let mut i: usize = 0;
    assert(all.take(0) == Seq::<JsonView>::empty());
    while i < updates.len()
        invariant
            i <= updates@.len(),
            all == views(updates@),
            start == views(docs@),
            batch(start, all.take(i as int)) == Ok::<BatchView, Seq<char>>(b@),
            b.matched <= i,
            b.modified <= i,
            b.upserted <= i,
        decreases updates@.len() - i,
    {
        assert(all.take(i + 1).drop_last() == all.take(i as int));
        assert(all.take(i + 1).last() == all[i as int]);
        match update_item(b, &updates[i]) {
            Ok(n) => {
                b = n;
            },
            Err(e) => {
                proof {
                    lemma_batch_error(start, all, i + 1);
                }
                return Err(e);
            },
        }
        i = i + 1;
    }
    assert(all.take(i as int) == all);
    Ok(b)
}

proof fn lemma_batch_error(docs: Seq<JsonView>, updates: Seq<JsonView>, n: int)
    requires
        0 <= n <= updates.len(),
        batch(docs, updates.take(n)) is Err,
    ensures
        batch(docs, updates) == batch(docs, updates.take(n)),
    decreases updates.len() - n,
{
    if n < updates.len() {
        assert(updates.take(n + 1).drop_last() == updates.take(n));
        lemma_batch_error(docs, updates, n + 1);
    } else {
        assert(updates.take(n) == updates);
    }
}

/// The documents that a payload brings along.
pub open spec fn data_in(payload: JsonView) -> Option<JsonView> {
    if field(payload, "data"@) is Some {
        field(payload, "data"@)
    } else if field(payload, "documents"@) is Some {
        field(payload, "documents"@)
    } else if field(payload, "docs"@) is Some {
        field(payload, "docs"@)
    } else {
        field(payload, "items"@)
    }
}

fn payload_data(payload: &Json) -> (r: Option<&Json>)
    ensures
        opt_view(r) == data_in(payload@),
{
    match payload.get("data") {
        Some(d) => Some(d),
        None => match payload.get("documents") {
            Some(d) => Some(d),
            None => match payload.get("docs") {
                Some(d) => Some(d),
                None => payload.get("items"),
            },
        },
    }
}

/// The result of an operation on many documents.
pub open spec fn counts_result(
    first: Seq<char>,
    a: nat,
    second: Seq<char>,
    b: nat,
) -> JsonView {
    JsonView::Object(
        seq![
            ("acknowledged"@, JsonView::Bool(true)),
            (first, count_value(a)),
            (second, count_value(b)),
        ],
    )
}

fn counts_value(first: &str, a: u64, second: &str, b: u64) -> (r: Json)
    ensures
        r@ == counts_result(first@, a as nat, second@, b as nat),
{
    let mut o = no_entries();
    put(&mut o, "acknowledged", Json::Bool(true));
    put(&mut o, first, nat_value(a));
    put(&mut o, second, nat_value(b));
    let r = Json::Object(o);
    assert(r@->Object_0 == counts_result(first@, a as nat, second@, b as nat)->Object_0);
    r
}

/// The result of a batch of updates.
pub open spec fn batch_result(b: BatchView) -> JsonView {
    JsonView::Object(
        seq![
            ("acknowledged"@, JsonView::Bool(true)),
            ("matchedCount"@, count_value(b.matched)),
            ("modifiedCount"@, count_value(b.modified)),
            ("upsertedCount"@, count_value(b.upserted)),
        ],
    )
}

/// What an operation on many documents comes to: it is saved where something
/// changed, and always told of.
pub open spec fn many_outcome(
    db: Seq<char>,
    collection: Seq<char>,
    docs: Seq<JsonView>,
    effects: Seq<EffectView>,
    had_change: bool,
    result: JsonView,
) -> OutcomeView {
    OutcomeView {
        docs,
        effects: effects + (if had_change {
            seq![EffectView::Save]
        } else {
            Seq::empty()
        }) + seq![
            EffectView::Emit {
                event: "updateCollection"@,
                payload: change_event(db, collection, JsonView::Null, JsonView::Null, result),
            },
        ],
        result,
    }
}

fn finish_many(
    db: &str,
    collection: &str,
    docs: Vec<Json>,
    effects: Vec<Effect>,
    had_change: bool,
    result: Json,
) -> (r: Outcome)
    ensures
        r@ == many_outcome(
            db@,
            collection@,
            views(docs@),
            effect_views(effects@),
            had_change,
            result@,
        ),
{
    let ghost start = effect_views(effects@);
    let mut effects = effects;
    if had_change {
        push_effect(&mut effects, Effect::Save);
    }
    push_event(
        &mut effects,
        "updateCollection",
        db,
        collection,
        Json::Null,
        Json::Null,
        result.clone(),
    );
    let r = Outcome { docs, effects, result };
    assert(r@.effects == many_outcome(
        db@,
        collection@,
        views(docs@),
        start,
        had_change,
        result@,
    ).effects);
    r
}

/// What updating a collection does: documents that are brought along are put
/// into it, else one update is made of all documents that a filter selects, or
/// a list of updates of single documents.
pub open spec fn update_collection_outcome(
    db: Seq<char>,
    collection: Seq<char>,
    payload: JsonView,
    docs: Seq<JsonView>,
) -> Result<OutcomeView, Seq<char>> {
    match data_in(payload) {
        Some(JsonView::Array(data)) => {
            let b = bulk(docs, data);
            Ok(
                many_outcome(
                    db,
                    collection,
                    b.docs,
                    b.effects,
                    b.inserted > 0 || b.modified > 0,
                    counts_result("insertedCount"@, b.inserted, "modifiedCount"@, b.modified),
                ),
            )
        },
        _ => match field(payload, "update"@) {
            Some(update) => {
                let s = sweep(filter_in(payload), update, docs);
                Ok(
                    many_outcome(
                        db,
                        collection,
                        s.docs,
                        s.effects,
                        s.matched > 0 || s.modified > 0,
                        counts_result("matchedCount"@, s.matched, "modifiedCount"@, s.modified),
                    ),
                )
            },
            None => match field(payload, "updates"@) {
                Some(JsonView::Array(updates)) => match batch(docs, updates) {
                    Ok(b) => Ok(
                        many_outcome(
                            db,
                            collection,
                            b.docs,
                            b.effects,
                            b.matched > 0 || b.upserted > 0,
                            batch_result(b),
                        ),
                    ),
                    Err(e) => Err(e),
                },
                _ => Err(missing("update"@)),
            },
        },
    }
}

fn update_collection(db: &str, collection: &str, payload: &Json, docs: Vec<Json>) -> (r: Result<
    Outcome,
    String,
>)
    ensures
        outcome_view(r) == update_collection_outcome(db@, collection@, payload@, views(docs@)),
{
    if let Some(Json::Array(data)) = payload_data(payload) {
        let b = put_all(docs, data);
        let had_change = b.inserted > 0 || b.modified > 0;
        let result = counts_value("insertedCount", b.inserted, "modifiedCount", b.modified);
        return Ok(finish_many(db, collection, b.docs, b.effects, had_change, result));
    }
    if let Some(update) = payload.get("update") {
        let filter = payload_filter(payload);
        let s = sweep_docs(&filter, update, &docs);
        let had_change = s.matched > 0 || s.modified > 0;
        let result = counts_value("matchedCount", s.matched, "modifiedCount", s.modified);
        return Ok(finish_many(db, collection, s.docs, s.effects, had_change, result));
    }
    if let Some(Json::Array(updates)) = payload.get("updates") {
        return match update_batch(docs, updates) {
            Ok(b) => {
                let mut o = no_entries();
                put(&mut o, "acknowledged", Json::Bool(true));
                put(&mut o, "matchedCount", nat_value(b.matched));
                put(&mut o, "modifiedCount", nat_value(b.modified));
                put(&mut o, "upsertedCount", nat_value(b.upserted));
                let result = Json::Object(o);
                assert(result@->Object_0 == batch_result(
                    batch(views(docs@), views(updates@))->Ok_0,
                )->Object_0);
                let had_change = b.matched > 0 || b.upserted > 0;
                Ok(finish_many(db, collection, b.docs, b.effects, had_change, result))
            },
            Err(e) => Err(e),
        };
    }
    Err(required("update"))
}

/// Whether all values of a list are objects.
pub open spec fn all_objects(a: Seq<JsonView>) -> bool {
    forall|i: int| 0 <= i < a.len() ==> (#[trigger] a[i]) is Object
}

/// Whether all values of a list are objects.
pub fn are_objects(a: &Vec<Json>) -> (r: bool)
    ensures
        r == all_objects(views(a@)),
{
    let mut i: usize = 0;
    while i < a.len()
        invariant
            i <= a@.len(),
            forall|j: int| 0 <= j < i ==> (#[trigger] views(a@)[j]) is Object,
        decreases a@.len() - i,
    {
        if !a[i].is_object() {
            assert(!(views(a@)[i as int] is Object));
            return false;
        }
        i = i + 1;
    }
    true
}

/// The documents that are to be imported, or why they cannot be.
pub open spec fn import_data(payload: JsonView) -> Result<Seq<JsonView>, Seq<char>> {
    match data_in(payload) {
        Some(JsonView::Array(data)) => if all_objects(data) {
            Ok(data)
        } else {
            Err("All documents must be JSON objects"@)
        },
        Some(_) => Err("data must be a JSON array"@),
        None => Err("data is required (array of documents)"@),
    }
}

fn imported(payload: &Json) -> (r: Result<&Vec<Json>, String>)
    ensures
        match r {
            Ok(d) => import_data(payload@) == Ok::<Seq<JsonView>, Seq<char>>(views(d@)),
            Err(e) => import_data(payload@) == Err::<Seq<JsonView>, Seq<char>>(e@),
        },
{
    match payload_data(payload) {
        Some(Json::Array(data)) => if are_objects(data) {
            Ok(data)
        } else {
            Err(owned("All documents must be JSON objects"))
        },
        Some(_) => Err(owned("data must be a JSON array")),
        None => Err(owned("data is required (array of documents)")),
    }
}

/// How an import goes about it.
pub open spec fn mode_in(payload: JsonView, default: Seq<char>) -> Seq<char> {
    match nonempty_text(payload, "mode"@) {
        Some(m) => m,
        None => default,
    }
}

/// The documents of a collection after an import, and how many were inserted
/// and replaced: they take the place of all, are added to them, or are put in
/// among them by their ids.
pub open spec fn import_into(
    mode: Seq<char>,
    docs: Seq<JsonView>,
    data: Seq<JsonView>,
) -> (Seq<JsonView>, nat, nat) {
    if mode == "replace"@ {
        (data, data.len(), 0)
    } else if mode == "append"@ {
        (docs + data, data.len(), 0)
    } else {
        (bulk(docs, data).docs, bulk(docs, data).inserted, bulk(docs, data).modified)
    }
}

/// The entries that tell of an import.
pub open spec fn import_entries(mode: Seq<char>, inserted: nat, updated: nat) -> Seq<
    (Seq<char>, JsonView),
> {
    seq![
        ("mode"@, JsonView::String(mode)),
        ("insertedCount"@, count_value(inserted)),
        ("modifiedCount"@, count_value(updated)),
    ]
}

/// What importing into a collection does: everything that was kept of it is
/// given up, and all its documents are indexed and kept anew.
pub open spec fn import_outcome(
    db: Seq<char>,
    collection: Seq<char>,
    payload: JsonView,
    docs: Seq<JsonView>,
) -> Result<OutcomeView, Seq<char>> {
    match import_data(payload) {
        Ok(data) => {
            let mode = mode_in(payload, "merge"@);
            let r = import_into(mode, docs, data);
            let entries = import_entries(mode, r.1, r.2);
            Ok(
                OutcomeView {
                    docs: r.0,
                    effects: seq![
                        EffectView::DropIndexes,
                        EffectView::InvalidateDocs,
                        EffectView::Save,
                    ] + indexing_all(r.0) + caching_all(r.0) + seq![
                        EffectView::Emit {
                            event: "importCollection"@,
                            payload: change_event(
                                db,
                                collection,
                                JsonView::Null,
                                JsonView::Null,
                                JsonView::Object(entries),
                            ),
                        },
                    ],
                    result: JsonView::Object(
                        seq![("acknowledged"@, JsonView::Bool(true))] + entries,
                    ),
                },
            )
        },
        Err(e) => Err(e),
    }
}

fn add_import_entries(o: &mut Vec<(String, Json)>, mode: &str, inserted: u64, updated: u64)
    ensures
        entry_views(final(o)@) == entry_views(old(o)@) + import_entries(
            mode@,
            inserted as nat,
            updated as nat,
        ),
{
    let ghost before = entry_views(o@);
    put(o, "mode", text_value(mode));
    put(o, "insertedCount", nat_value(inserted));
    put(o, "modifiedCount", nat_value(updated));
    assert(entry_views(o@) == before + import_entries(mode@, inserted as nat, updated as nat));
}

fn import_docs(mode: &str, docs: Vec<Json>, data: &Vec<Json>) -> (r: (Vec<Json>, u64, u64))
    ensures
        (views(r.0@), r.1 as nat, r.2 as nat) == import_into(mode@, views(docs@), views(data@)),
{
    if same_text(mode, "replace") {
        (copy_list(data), data.len() as u64, 0)
    } else if same_text(mode, "append") {
        let ghost start = views(docs@);
        let mut docs = docs;
        let mut more = copy_list(data);
        docs.append(&mut more);
        assert(views(docs@) == start + views(data@));
        (docs, data.len() as u64, 0)
    } else {
        let b = put_all(docs, data);
        (b.docs, b.inserted, b.modified)
    }
}

fn import_collection(db: &str, collection: &str, payload: &Json, docs: Vec<Json>) -> (r: Result<
    Outcome,
    String,
>)
    ensures
        outcome_view(r) == import_outcome(db@, collection@, payload@, views(docs@)),
{
    match imported(payload) {
        Ok(data) => {
            let ghost start = views(docs@);
            let mode = match opt_str(payload, "mode") {
                Some(m) => m,
                None => "merge",
            };
            let (docs, inserted, updated) = import_docs(mode, docs, data);
            let mut effects = no_effects();
            push_effect(&mut effects, Effect::DropIndexes);
            push_effect(&mut effects, Effect::InvalidateDocs);
            push_effect(&mut effects, Effect::Save);
            assert(effect_views(effects@) == seq![
                EffectView::DropIndexes,
                EffectView::InvalidateDocs,
                EffectView::Save,
            ]);
            index_docs(&mut effects, &docs);
            cache_docs(&mut effects, &docs);
            let mut s = no_entries();
            add_import_entries(&mut s, mode, inserted, updated);
            let summary = Json::Object(s);
            let ghost entries = import_entries(mode@, inserted as nat, updated as nat);
            assert(summary@->Object_0 == entries);
            push_event(
                &mut effects,
                "importCollection",
                db,
                collection,
                Json::Null,
                Json::Null,
                summary,
            );
            let mut o = no_entries();
            put(&mut o, "acknowledged", Json::Bool(true));
            add_import_entries(&mut o, mode, inserted, updated);
            let r = Outcome { docs, effects, result: Json::Object(o) };
            proof {
                let want = import_outcome(db@, collection@, payload@, start)->Ok_0;
                assert(r@.result->Object_0 == want.result->Object_0);
                assert(r@.effects == want.effects);
            }
            Ok(r)
        },
        Err(e) => Err(e),
    }
}

/// What an operation on the documents of a collection does.
pub open spec fn collection_outcome(
    db: Seq<char>,
    collection: Seq<char>,
    func: Seq<char>,
    payload: JsonView,
    docs: Seq<JsonView>,
) -> Result<OutcomeView, Seq<char>> {
    if func == "insertOne"@ {
        insert_outcome(db, collection, payload, docs)
    } else if func == "updateOne"@ {
        match field(payload, "update"@) {
            Some(update) => Ok(
                change_outcome(
                    db,
                    collection,
                    func,
                    update_first(filter_in(payload), update, upsert_in(payload), docs),
                ),
            ),
            None => Err(missing("update"@)),
        }
    } else if func == "replaceOne"@ {
        match field(payload, "replacement"@) {
            Some(new) => Ok(
                change_outcome(
                    db,
                    collection,
                    func,
                    replace_first(filter_in(payload), new, upsert_in(payload), docs),
                ),
            ),
            None => Err(missing("replacement"@)),
        }
    } else if func == "deleteOne"@ {
        Ok(delete_one_outcome(db, collection, payload, docs))
    } else if func == "deleteMany"@ {
        Ok(delete_many_outcome(db, collection, payload, docs))
    } else if func == "updateCollection"@ {
        update_collection_outcome(db, collection, payload, docs)
    } else if func == "exportCollection"@ {
        Ok(OutcomeView { docs, effects: Seq::empty(), result: JsonView::Array(docs) })
    } else if func == "importCollection"@ {
        import_outcome(db, collection, payload, docs)
    } else {
        Err("Unknown collection function: "@ + func)
    }
}

/// Does an operation on the documents of a collection.
pub fn handle_collection_action(
    db: &str,
    collection: &str,
    func: &str,
    payload: &Json,
    docs: Vec<Json>,
) -> (r: Result<Outcome, String>)
    ensures
        outcome_view(r) == collection_outcome(db@, collection@, func@, payload@, views(docs@)),
{
    if same_text(func, "insertOne") {
        insert_one(db, collection, payload, docs)
    } else if same_text(func, "updateOne") {
        match payload.get("update") {
            Some(update) => {
                let filter = payload_filter(payload);
                let c = update_one(&filter, update, payload_upsert(payload), docs);
                Ok(finish_change(db, collection, func, c))
            },
            None => Err(required("update")),
        }
    } else if same_text(func, "replaceOne") {
        match payload.get("replacement") {
            Some(new) => {
                let filter = payload_filter(payload);
                let c = replace_one(&filter, new, payload_upsert(payload), docs);
                Ok(finish_change(db, collection, func, c))
            },
            None => Err(required("replacement")),
        }
    } else if same_text(func, "deleteOne") {
        Ok(delete_one(db, collection, payload, docs))
    } else if same_text(func, "deleteMany") {
        Ok(delete_many(db, collection, payload, docs))
    } else if same_text(func, "updateCollection") {
        update_collection(db, collection, payload, docs)
    } else if same_text(func, "exportCollection") {
        let result = Json::Array(copy_list(&docs));
        Ok(Outcome { docs, effects: no_effects(), result })
    } else if same_text(func, "importCollection") {
        import_collection(db, collection, payload, docs)
    } else {
        Err(cat("Unknown collection function: ", func))
    }
}

/// How an operation on a collection starts.
#[derive(Debug)]
pub enum CollectionStep {
    Find(Query),
    FindOne(Query),
    Load,
}

/// How an operation on a collection starts.
#[verifier::ext_equal]
pub enum CollectionStepView {
    Find(QueryView),
    FindOne(QueryView),
    Load,
}

impl View for CollectionStep {
    type V = CollectionStepView;

    open spec fn view(&self) -> CollectionStepView {
        match self {
            CollectionStep::Find(q) => CollectionStepView::Find(q@),
            CollectionStep::FindOne(q) => CollectionStepView::FindOne(q@),
            CollectionStep::Load => CollectionStepView::Load,
        }
    }
}

/// An option of a query: it stands in the payload, or under its `options`.
pub open spec fn option_in(payload: JsonView, key: Seq<char>) -> Option<JsonView> {
    match field(payload, key) {
        Some(v) => Some(v),
        None => match field(payload, "options"@) {
            Some(o) => field(o, key),
            None => None,
        },
    }
}

fn payload_option<'a>(payload: &'a Json, key: &str) -> (r: Option<&'a Json>)
    ensures
        opt_view(r) == option_in(payload@, key@),
{
    match payload.get(key) {
        Some(v) => Some(v),
        None => match payload.get("options") {
            Some(o) => o.get(key),
            None => None,
        },
    }
}

/// The query for all documents that a payload asks for.
pub open spec fn find_query(payload: JsonView) -> QueryView {
    QueryView {
        filter: filter_in(payload),
        sort: option_in(payload, "sort"@),
        projection: option_in(payload, "projection"@),
        limit: match option_in(payload, "limit"@) {
            Some(v) => nat_of(v),
            None => None,
        },
        skip: match option_in(payload, "skip"@) {
            Some(v) => match nat_of(v) {
                Some(n) => n,
                None => 0,
            },
            None => 0,
        },
    }
}

/// The query for one document that a payload asks for.
pub open spec fn find_one_query(payload: JsonView) -> QueryView {
    QueryView {
        filter: match field(payload, "filter"@) {
            Some(f) => f,
            None => match field(payload, "query"@) {
                Some(f) => f,
                None => JsonView::Object(Seq::empty()),
            },
        },
        sort: option_in(payload, "sort"@),
        projection: option_in(payload, "projection"@),
        limit: Some(1),
        skip: 0,
    }
}

fn make_find_query(payload: &Json) -> (r: Query)
    ensures
        r@ == find_query(payload@),
{
    Query {
        filter: payload_filter(payload),
        sort: cloned_json(payload_option(payload, "sort")),
        projection: cloned_json(payload_option(payload, "projection")),
        limit: match payload_option(payload, "limit") {
            Some(v) => v.as_u64(),
            None => None,
        },
        skip: match payload_option(payload, "skip") {
            Some(v) => match v.as_u64() {
                Some(n) => n,
                None => 0,
            },
            None => 0,
        },
    }
}

fn make_find_one_query(payload: &Json) -> (r: Query)
    ensures
        r@ == find_one_query(payload@),
{
    let filter = match payload.get("filter") {
        Some(f) => f.clone(),
        None => match payload.get("query") {
            Some(f) => f.clone(),
            None => empty_object(),
        },
    };
    Query {
        filter,
        sort: cloned_json(payload_option(payload, "sort")),
        projection: cloned_json(payload_option(payload, "projection")),
        limit: Some(1),
        skip: 0,
    }
}

/// Whether a collection has a function that works on its documents.
pub open spec fn works_on_docs(func: Seq<char>) -> bool {
    crate::request::changes_collection(func) || func == "exportCollection"@
}

fn is_known(func: &str) -> (r: bool)
    ensures
        r == works_on_docs(func@),
{
    same_text(func, "insertOne") || same_text(func, "updateOne") || same_text(func, "replaceOne")
        || same_text(func, "deleteOne") || same_text(func, "deleteMany") || same_text(
        func,
        "updateCollection",
    ) || same_text(func, "importCollection") || same_text(func, "exportCollection")
}

/// How an operation on a collection starts, and the name of the collection, or
/// why it cannot start.
pub open spec fn collection_start(func: Seq<char>, payload: JsonView) -> Result<
    (Seq<char>, CollectionStepView),
    Seq<char>,
> {
    match wanted_collection(payload) {
        Some(name) => if reserved_collection(name) {
            Err("Collection '"@ + name + "' is reserved and cannot be modified"@)
        } else if func == "find"@ {
            Ok((name, CollectionStepView::Find(find_query(payload))))
        } else if func == "findOne"@ {
            Ok((name, CollectionStepView::FindOne(find_one_query(payload))))
        } else if func == "importCollection"@ && import_data(payload) is Err {
            Err(import_data(payload)->Err_0)
        } else if works_on_docs(func) {
            Ok((name, CollectionStepView::Load))
        } else {
            Err("Unknown collection function: "@ + func)
        },
        None => Err("collectionName is required"@),
    }
}

/// Starts an operation on a collection.
pub fn begin_collection_action(func: &str, payload: &Json) -> (r: Result<
    (String, CollectionStep),
    String,
>)
    ensures
        match r {
            Ok((name, step)) => collection_start(func@, payload@) == Ok::<
                (Seq<char>, CollectionStepView),
                Seq<char>,
            >((name@, step@)),
            Err(e) => collection_start(func@, payload@) == Err::<
                (Seq<char>, CollectionStepView),
                Seq<char>,
            >(e@),
        },
{
    match require_collection_name(payload) {
        Ok(name) => {
            if is_reserved_collection(name) {
                return Err(
                    cat3("Collection '", name, "' is reserved and cannot be modified"),
                );
            }
            if same_text(func, "find") {
                return Ok((owned(name), CollectionStep::Find(make_find_query(payload))));
            }
            if same_text(func, "findOne") {
                return Ok((owned(name), CollectionStep::FindOne(make_find_one_query(payload))));
            }
            if same_text(func, "importCollection") {
                match imported(payload) {
                    Ok(_) => {},
                    Err(e) => {
                        return Err(e);
                    },
                }
            }
            if is_known(func) {
                Ok((owned(name), CollectionStep::Load))
            } else {
                Err(cat("Unknown collection function: ", func))
            }
        },
        Err(e) => Err(e),
    }
}

/// The result of a query for one document: the first that was found, as the
/// projection shows it, or null.
pub open spec fn first_or_null(projection: Option<JsonView>, found: Seq<JsonView>) -> JsonView {
    if found.len() == 0 {
        JsonView::Null
    } else {
        match projection {
            Some(p) => projected(p, found[0]),
            None => found[0],
        }
    }
}

/// The result of a query for one document.
pub fn find_one_result(q: &Query, found: &Vec<Json>) -> (r: Json)
    ensures
        r@ == first_or_null(q@.projection, views(found@)),
{
    if found.len() == 0 {
        return Json::Null;
    }
    match &q.projection {
        Some(p) => apply_projection(&found[0], p),
        None => found[0].clone(),
    }
}

/// What is to be done to answer a query.
#[derive(Debug)]
pub enum ResolveAction {
    Lookup { queries: Vec<IndexQuery> },
    Fetch { ids: Vec<String> },
    Load,
}

/// What is to be done to answer a query.
#[verifier::ext_equal]
pub enum ResolveView {
    Lookup { queries: Seq<IndexQueryView> },
    Fetch { ids: Seq<Seq<char>> },
    Load,
}

impl View for ResolveAction {
    type V = ResolveView;

    open spec fn view(&self) -> ResolveView {
        match self {
            ResolveAction::Lookup { queries } => ResolveView::Lookup {
                queries: index_query_views(queries@),
            },
            ResolveAction::Fetch { ids } => ResolveView::Fetch { ids: texts(ids@) },
            ResolveAction::Load => ResolveView::Load,
        }
    }
}

/// Starts to answer a query: by the indexes, where documents are kept and
/// indexed and the plan uses an index; else from the database.
pub fn resolve_docs_redis_first(
    q: &Query,
    docs_kept: bool,
    indexes: Option<&RedisIndexManager>,
    db: &str,
    collection: &str,
) -> (r: ResolveAction)
    ensures
        r@ == match indexes {
            Some(m) => if docs_kept && plan_of(q@.filter).can_use_redis {
                ResolveView::Lookup {
                    queries: strategy_queries(
                        m.prefix@,
                        db@,
                        collection@,
                        plan_of(q@.filter).index_strategy,
                    ),
                }
            } else {
                ResolveView::Load
            },
            None => ResolveView::Load,
        },
{
    let plan = QueryPlanAnalyzer::analyze(&q.filter);
    match indexes {
        Some(m) => if docs_kept && plan.can_use_redis {
            ResolveAction::Lookup { queries: m.queries(db, collection, &plan.index_strategy) }
        } else {
            ResolveAction::Load
        },
        None => ResolveAction::Load,
    }
}

/// Goes on with what the indexes say: the documents that they name are fetched;
/// where they name none the database is asked.
pub fn resolve_replies(q: &Query, replies: &Vec<Vec<String>>) -> (r: ResolveAction)
    ensures
        r@ == {
            let ids = found_ids(plan_of(q@.filter).index_strategy, text_lists(replies@));
            if ids.len() > 0 {
                ResolveView::Fetch { ids }
            } else {
                ResolveView::Load
            }
        },
{
    let plan = QueryPlanAnalyzer::analyze(&q.filter);
    let ids = ids_from_replies(&plan.index_strategy, replies);
    if ids.len() > 0 {
        ResolveAction::Fetch { ids }
    } else {
        ResolveAction::Load
    }
}

/// Answers a query from documents that were fetched.
pub fn resolve_fetched(q: &Query, docs: &Vec<Option<Json>>) -> (r: Vec<Json>)
    ensures
        answers(q@, present(own_views(docs@)), views(r@)),
{
    let found = found_docs(docs);
    select_docs(&found, q)
}

/// Answers a query from the documents of the database; what is found is kept.
pub fn resolve_loaded(q: &Query, docs: &Vec<Json>) -> (r: (Vec<Json>, Vec<Effect>))
    ensures
        answers(q@, views(docs@), views(r.0@)),
        effect_views(r.1@) == caching_all(views(r.0@)),
{
    let found = select_docs(docs, q);
    let effects = caching_effects(&found);
    (found, effects)
}

/// The fields that an operation asks about and that are counted as queried.
pub open spec fn observed(func: Seq<char>, payload: JsonView) -> Seq<Seq<char>> {
    if func == "find"@ || func == "updateOne"@ || func == "deleteOne"@ {
        crate::plan::fields_of(filter_in(payload))
    } else if func == "findOne"@ {
        crate::plan::fields_of(find_one_query(payload).filter)
    } else {
        Seq::empty()
    }
}

/// The fields that an operation asks about and that are counted as queried.
pub fn observed_fields(func: &str, payload: &Json) -> (r: Vec<String>)
    ensures
        texts(r@) == observed(func@, payload@),
{
    if same_text(func, "find") || same_text(func, "updateOne") || same_text(func, "deleteOne") {
        let filter = payload_filter(payload);
        QueryPlanAnalyzer::extract_indexable_fields(&filter)
    } else if same_text(func, "findOne") {
        let q = make_find_one_query(payload);
        QueryPlanAnalyzer::extract_indexable_fields(&q.filter)
    } else {
        let r: Vec<String> = Vec::new();
        assert(texts(r@) == Seq::<Seq<char>>::empty());
        r
    }
}

/// A replaced document keeps its id.
pub proof fn lemma_replaced_keeps_id(new: JsonView, old_doc: JsonView)
    requires
        new is Object,
        field(old_doc, "_id"@) is Some,
    ensures
        field(replaced(new, old_doc), "_id"@) == field(old_doc, "_id"@),
{
    crate::object::lemma_lookup_with_key(
        new->Object_0,
        "_id"@,
        field(old_doc, "_id"@)->Some_0,
        "_id"@,
    );
}

/// Whether no two documents of a list have the same id.
pub open spec fn unique_ids(docs: Seq<JsonView>) -> bool {
    forall|i: int, j: int|
        0 <= i < j < docs.len() && field(#[trigger] docs[i], "_id"@) is Some && field(
            #[trigger] docs[j],
            "_id"@,
        ) is Some ==> !alike(field(docs[i], "_id"@), field(docs[j], "_id"@))
}

/// Whether all documents of a list are well-formed.
pub open spec fn all_well_formed(docs: Seq<JsonView>) -> bool {
    forall|i: int| 0 <= i < docs.len() ==> well_formed(#[trigger] docs[i])
}

proof fn lemma_id_well_formed(d: JsonView)
    requires
        well_formed(d),
    ensures
        field(d, "_id"@) matches Some(id) ==> well_formed(id),
{
    if let JsonView::Object(o) = d {
        crate::object::lemma_key_at(o, "_id"@);
    }
}

/// Putting documents into a list keeps ids unique.
pub proof fn lemma_bulk_keeps_ids_unique(docs: Seq<JsonView>, data: Seq<JsonView>)
    requires
        all_well_formed(docs),
        all_well_formed(data),
        unique_ids(docs),
    ensures
        unique_ids(bulk(docs, data).docs),
        all_well_formed(bulk(docs, data).docs),
    decreases data.len(),
{
    if data.len() > 0 {
        let rest = data.drop_last();
        assert(all_well_formed(rest)) by {
            assert forall|i: int| 0 <= i < rest.len() implies well_formed(#[trigger] rest[i]) by {
                assert(rest[i] == data[i]);
            }
        }
        lemma_bulk_keeps_ids_unique(docs, rest);
        let b = bulk(docs, rest).docs;
        let raw = data.last();
        let r = bulk(docs, data).docs;
        assert(well_formed(data[data.len() - 1]));
        lemma_id_well_formed(raw);
        if raw is Object {
            let i = match field(raw, "_id"@) {
                Some(id) => id_at(b, id),
                None => b.len(),
            };
            if let Some(id) = field(raw, "_id"@) {
                lemma_first_where(b, |d: JsonView| alike(field(d, "_id"@), Some(id)));
            }
            assert(r == if i < b.len() {
                b.update(i as int, raw)
            } else {
                b.push(raw)
            });
            assert(all_well_formed(r));
            assert forall|m: int, n: int|
                0 <= m < n < r.len() && field(#[trigger] r[m], "_id"@) is Some && field(
                    #[trigger] r[n],
                    "_id"@,
                ) is Some implies !alike(field(r[m], "_id"@), field(r[n], "_id"@)) by {
                lemma_one_id(b, r, raw, i as int, m, n);
            }
        }
    }
}

proof fn lemma_one_id(
    b: Seq<JsonView>,
    r: Seq<JsonView>,
    raw: JsonView,
    i: int,
    m: int,
    n: int,
)
    requires
        all_well_formed(b),
        well_formed(raw),
        unique_ids(b),
        0 <= i <= b.len(),
        r == if i < b.len() {
            b.update(i, raw)
        } else {
            b.push(raw)
        },
        field(raw, "_id"@) is Some ==> i == id_at(b, field(raw, "_id"@)->Some_0),
        field(raw, "_id"@) is None ==> i == b.len(),
        0 <= m < n < r.len(),
        field(r[m], "_id"@) is Some,
        field(r[n], "_id"@) is Some,
    ensures
        !alike(field(r[m], "_id"@), field(r[n], "_id"@)),
{
    if m != i && n != i {
        assert(r[m] == b[m] && r[n] == b[n]);
        assert(!alike(field(b[m], "_id"@), field(b[n], "_id"@)));
    } else {
        let k = if m == i {
            n
        } else {
            m
        };
        assert(r[k] == b[k]);
        assert(r[i] == raw);
        let id = field(raw, "_id"@)->Some_0;
        let p = |d: JsonView| alike(field(d, "_id"@), Some(id));
        lemma_first_where(b, p);
        let x = field(b[k], "_id"@)->Some_0;
        lemma_id_well_formed(b[k]);
        lemma_id_well_formed(raw);
        if i < b.len() {
            let y = field(b[i], "_id"@)->Some_0;
            lemma_id_well_formed(b[i]);
            assert(p(b[i]));
            crate::value::lemma_equivalence(x, id, y);
            crate::value::lemma_equivalence(id, x, y);
            crate::value::lemma_equivalence(y, id, x);
            crate::value::lemma_equivalence(id, y, x);
            if k < i {
                assert(!alike(field(b[k], "_id"@), field(b[i], "_id"@)));
            } else {
                assert(!alike(field(b[i], "_id"@), field(b[k], "_id"@)));
            }
        } else {
            assert(!p(b[k]));
            crate::value::lemma_equivalence(id, x, id);
        }
    }
}

} // verus!
