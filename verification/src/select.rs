//! Which documents a query gives, and in what order.

use crate::filter::{match_filter, selects};
use crate::json::{views, Json, JsonView};
use crate::keys::{RedisIndexManager, numeric_name, string_name, tag_name};
use crate::object::own_view;
use crate::plan::{IndexStrategy, StrategyView};
use crate::project::{apply_projection, projected};
use crate::sort::{is_sorting, sort_docs};
use crate::text::{same_text, texts};
use vstd::prelude::*;

verus! {

broadcast use crate::json::group_json_views;

/// A query: which documents, in what order, what is shown of them, and which
/// part of the list.
#[derive(Debug)]
pub struct Query {
    pub filter: Json,
    pub sort: Option<Json>,
    pub projection: Option<Json>,
    pub limit: Option<u64>,
    pub skip: u64,
}

/// What a query is.
#[verifier::ext_equal]
pub struct QueryView {
    pub filter: JsonView,
    pub sort: Option<JsonView>,
    pub projection: Option<JsonView>,
    pub limit: Option<u64>,
    pub skip: u64,
}

impl View for Query {
    type V = QueryView;

    open spec fn view(&self) -> QueryView {
        QueryView {
            filter: self.filter@,
            sort: own_view(self.sort),
            projection: own_view(self.projection),
            limit: self.limit,
            skip: self.skip,
        }
    }
}

/// The documents that a filter selects, in the order in which they stand.
pub open spec fn matching(filter: JsonView, docs: Seq<JsonView>) -> Seq<JsonView>
    decreases docs.len(),
{
    if docs.len() == 0 {
        docs
    } else {
        let head = matching(filter, docs.drop_last());
        if selects(filter, docs.last()) {
            head.push(docs.last())
        } else {
            head
        }
    }
}

/// Whether a list is another one put in the order that is asked for, if any is.
pub open spec fn sorts_to(
    sort: Option<JsonView>,
    before: Seq<JsonView>,
    after: Seq<JsonView>,
) -> bool {
    match sort {
        Some(s) => is_sorting(s, before, after),
        None => after == before,
    }
}

/// The part of a list that is left when some are skipped and at most so many
/// taken.
pub open spec fn window(docs: Seq<JsonView>, skip: u64, limit: Option<u64>) -> Seq<JsonView> {
    let from = if skip < docs.len() {
        skip as int
    } else {
        docs.len() as int
    };
    let to = match limit {
        Some(n) => if from + n < docs.len() {
            from + n
        } else {
            docs.len() as int
        },
        None => docs.len() as int,
    };
    docs.subrange(from, to)
}

/// What is shown of the documents of a list.
pub open spec fn shown(projection: Option<JsonView>, docs: Seq<JsonView>) -> Seq<JsonView> {
    match projection {
        Some(p) => docs.map_values(|d: JsonView| projected(p, d)),
        None => docs,
    }
}

/// Whether a list is what a query gives of some documents.
pub open spec fn answers(q: QueryView, docs: Seq<JsonView>, r: Seq<JsonView>) -> bool {
    exists|s: Seq<JsonView>| #[trigger]
        sorts_to(q.sort, matching(q.filter, docs), s) && r == shown(
            q.projection,
            window(s, q.skip, q.limit),
        )
}

/// The documents that a filter selects.
pub fn matching_docs(docs: &Vec<Json>, filter: &Json) -> (r: Vec<Json>)
    ensures
        views(r@) == matching(filter@, views(docs@)),
{
    let ghost all = views(docs@);
    let mut r: Vec<Json> = Vec::new();
    let mut i: usize = 0;
    assert(views(r@) == all.take(0));
    while i < docs.len()
        invariant
            i <= docs@.len(),
            all == views(docs@),
            views(r@) == matching(filter@, all.take(i as int)),
        decreases docs@.len() - i,
    {
        assert(all.take(i + 1).drop_last() == all.take(i as int));
        assert(all.take(i + 1).last() == all[i as int]);
        if match_filter(&docs[i], filter) {
            let ghost before = views(r@);
            r.push(docs[i].clone());
            assert(views(r@) == before.push(all[i as int]));
        }
        i = i + 1;
    }
    assert(all.take(i as int) == all);
    r
}

/// What a query gives of some documents.
pub fn select_docs(docs: &Vec<Json>, q: &Query) -> (r: Vec<Json>)
    ensures
        answers(q@, views(docs@), views(r@)),
{
    let mut matched = matching_docs(docs, &q.filter);
    let ghost found = views(matched@);
    match &q.sort {
        Some(s) => sort_docs(&mut matched, s),
        None => {},
    }
    let ghost s = views(matched@);
    assert(sorts_to(q@.sort, found, s));
    let n = matched.len();
    let from: usize = if q.skip < n as u64 {
        q.skip as usize
    } else {
        n
    };
    let to: usize = match q.limit {
        Some(l) => if l < (n - from) as u64 {
            from + l as usize
        } else {
            n
        },
        None => n,
    };
    let ghost part = window(s, q.skip, q.limit);
    assert(part == s.subrange(from as int, to as int));
    let ghost all = shown(q@.projection, part);
    let mut r: Vec<Json> = Vec::new();
    let mut i: usize = from;
    assert(views(r@) == all.take(0));
    while i < to
        invariant
            from <= i <= to <= matched@.len(),
            s == views(matched@),
            part == s.subrange(from as int, to as int),
            all == shown(q@.projection, part),
            views(r@) == all.take(i - from),
        decreases to - i,
    {
        let ghost before = views(r@);
        let d = match &q.projection {
            Some(p) => apply_projection(&matched[i], p),
            None => matched[i].clone(),
        };
        let ghost x = d@;
        assert(part[i - from] == s[i as int]);
        assert(x == all[i - from]);
        r.push(d);
        assert(views(r@) == before.push(x));
        assert(all.take(i - from + 1) == all.take(i - from).push(x));
        i = i + 1;
    }
    assert(all.take(to - from) == all);
    r
}

/// The documents that a filter selects are those of the list that meet it.
pub proof fn lemma_matching(filter: JsonView, docs: Seq<JsonView>)
    ensures
        matching(filter, docs).len() <= docs.len(),
        forall|i: int|
            0 <= i < matching(filter, docs).len() ==> selects(
                filter,
                #[trigger] matching(filter, docs)[i],
            ),
        forall|d: JsonView| #[trigger]
            matching(filter, docs).contains(d) <==> docs.contains(d) && selects(filter, d),
    decreases docs.len(),
{
    if docs.len() > 0 {
        let rest = docs.drop_last();
        let head = matching(filter, rest);
        let m = matching(filter, docs);
        lemma_matching(filter, rest);
        assert(m == if selects(filter, docs.last()) {
            head.push(docs.last())
        } else {
            head
        });
        assert forall|d: JsonView| #[trigger] m.contains(d) <==> docs.contains(d) && selects(
            filter,
            d,
        ) by {
            if m.contains(d) {
                let i = choose|i: int| 0 <= i < m.len() && m[i] == d;
                if i < head.len() {
                    assert(head[i] == d);
                    assert(head.contains(d));
                    assert(rest.contains(d));
                    let j = choose|j: int| 0 <= j < rest.len() && rest[j] == d;
                    assert(docs[j] == d);
                } else {
                    assert(docs[docs.len() - 1] == d);
                }
            }
            if docs.contains(d) && selects(filter, d) {
                let i = choose|i: int| 0 <= i < docs.len() && docs[i] == d;
                if i < rest.len() {
                    assert(rest[i] == d);
                    assert(rest.contains(d));
                    assert(head.contains(d));
                    let j = choose|j: int| 0 <= j < head.len() && head[j] == d;
                    assert(m[j] == d);
                } else {
                    assert(m[head.len() as int] == d);
                }
            }
        }
    }
}

/// A query that shows whole documents gives only documents of the list that
/// meet its filter, and no more than it asks for; one that asks for no part of
/// the list gives them all.
pub proof fn lemma_answers(q: QueryView, docs: Seq<JsonView>, r: Seq<JsonView>)
    requires
        q.projection is None,
        answers(q, docs, r),
    ensures
        forall|i: int|
            0 <= i < r.len() ==> selects(q.filter, #[trigger] r[i]) && docs.contains(r[i]),
        q.limit matches Some(n) ==> r.len() <= n,
        q.limit is None && q.skip == 0 ==> r.to_multiset() == matching(
            q.filter,
            docs,
        ).to_multiset(),
        q.limit is None && q.skip == 0 && q.sort is None ==> r == matching(q.filter, docs),
{
    broadcast use vstd::seq_lib::group_to_multiset_ensures;

    let m = matching(q.filter, docs);
    let s = choose|s: Seq<JsonView>| #[trigger]
        sorts_to(q.sort, m, s) && r == shown(q.projection, window(s, q.skip, q.limit));
    lemma_matching(q.filter, docs);
    assert(s.to_multiset() == m.to_multiset());
    assert forall|i: int| 0 <= i < r.len() implies selects(q.filter, #[trigger] r[i])
        && docs.contains(r[i]) by {
        let from = if q.skip < s.len() {
            q.skip as int
        } else {
            s.len() as int
        };
        assert(r[i] == s[from + i]);
        assert(s.contains(r[i]));
        assert(s.to_multiset().count(r[i]) > 0);
        assert(m.to_multiset().count(r[i]) > 0);
        assert(m.contains(r[i]));
    }
    if q.limit is None && q.skip == 0 {
        assert(window(s, q.skip, q.limit) == s);
    }
}

/// One look into an index.
#[derive(Debug)]
pub enum IndexQuery {
    Range { key: String, min: u64, max: u64 },
    Members { key: String },
    Value { key: String },
    Common { keys: Vec<String> },
}

/// What a look into an index is.
#[verifier::ext_equal]
pub enum IndexQueryView {
    Range { key: Seq<char>, min: u64, max: u64 },
    Members { key: Seq<char> },
    Value { key: Seq<char> },
    Common { keys: Seq<Seq<char>> },
}

impl View for IndexQuery {
    type V = IndexQueryView;

    open spec fn view(&self) -> IndexQueryView {
        match self {
            IndexQuery::Range { key, min, max } => IndexQueryView::Range {
                key: key@,
                min: *min,
                max: *max,
            },
            IndexQuery::Members { key } => IndexQueryView::Members { key: key@ },
            IndexQuery::Value { key } => IndexQueryView::Value { key: key@ },
            IndexQuery::Common { keys } => IndexQueryView::Common { keys: texts(keys@) },
        }
    }
}

pub open spec fn index_query_views(s: Seq<IndexQuery>) -> Seq<IndexQueryView> {
    s.map_values(|q: IndexQuery| q@)
}

/// The look into an index that a strategy on one field asks for.
pub open spec fn field_query(
    prefix: Seq<char>,
    db: Seq<char>,
    collection: Seq<char>,
    s: StrategyView,
) -> Option<IndexQueryView> {
    match s {
        StrategyView::NumericRange { field, min, max } => Some(
            IndexQueryView::Range { key: numeric_name(prefix, db, collection, field), min, max },
        ),
        StrategyView::TagExact { field, value } => Some(
            IndexQueryView::Members { key: tag_name(prefix, db, collection, field, value) },
        ),
        StrategyView::StringExact { field, value } => Some(
            IndexQueryView::Value { key: string_name(prefix, db, collection, field, value) },
        ),
        _ => None,
    }
}

/// The looks into indexes that the parts of a strategy ask for.
pub open spec fn part_queries(
    prefix: Seq<char>,
    db: Seq<char>,
    collection: Seq<char>,
    parts: Seq<StrategyView>,
) -> Seq<IndexQueryView>
    decreases parts.len(),
{
    if parts.len() == 0 {
        Seq::empty()
    } else {
        let head = part_queries(prefix, db, collection, parts.drop_last());
        match field_query(prefix, db, collection, parts.last()) {
            Some(q) => head.push(q),
            None => head,
        }
    }
}

/// The looks into indexes that a strategy asks for.
pub open spec fn strategy_queries(
    prefix: Seq<char>,
    db: Seq<char>,
    collection: Seq<char>,
    s: StrategyView,
) -> Seq<IndexQueryView> {
    match s {
        StrategyView::TagsAnd { field, values } => if values.len() == 0 {
            Seq::empty()
        } else {
            seq![
                IndexQueryView::Common {
                    keys: values.map_values(
                        |v: Seq<char>| tag_name(prefix, db, collection, field, v),
                    ),
                },
            ]
        },
        StrategyView::Composite(parts) => part_queries(prefix, db, collection, parts),
        _ => match field_query(prefix, db, collection, s) {
            Some(q) => seq![q],
            None => Seq::empty(),
        },
    }
}

/// The lists that hold something.
pub open spec fn nonempty_lists(lists: Seq<Seq<Seq<char>>>) -> Seq<Seq<Seq<char>>>
    decreases lists.len(),
{
    if lists.len() == 0 {
        lists
    } else if lists.last().len() == 0 {
        nonempty_lists(lists.drop_last())
    } else {
        nonempty_lists(lists.drop_last()).push(lists.last())
    }
}

/// Those of a list that stand in another list.
pub open spec fn kept_in(a: Seq<Seq<char>>, b: Seq<Seq<char>>) -> Seq<Seq<char>>
    decreases a.len(),
{
    if a.len() == 0 {
        a
    } else if b.contains(a.last()) {
        kept_in(a.drop_last(), b).push(a.last())
    } else {
        kept_in(a.drop_last(), b)
    }
}

/// Those of the first list that stand in all the others.
pub open spec fn common(lists: Seq<Seq<Seq<char>>>) -> Seq<Seq<char>>
    decreases lists.len(),
{
    if lists.len() == 0 {
        Seq::empty()
    } else if lists.len() == 1 {
        lists[0]
    } else {
        kept_in(common(lists.drop_last()), lists.last())
    }
}

/// The ids that the answers to the looks into indexes give for a strategy.
pub open spec fn found_ids(s: StrategyView, replies: Seq<Seq<Seq<char>>>) -> Seq<Seq<char>> {
    match s {
        StrategyView::PrimaryKeyLookup { id } => seq![id],
        StrategyView::Composite(_) => common(nonempty_lists(replies)),
        _ => if replies.len() == 0 {
            Seq::empty()
        } else {
            replies[0]
        },
    }
}

/// The views of lists of texts.
pub open spec fn text_lists(s: Seq<Vec<String>>) -> Seq<Seq<Seq<char>>> {
    s.map_values(|l: Vec<String>| texts(l@))
}

impl RedisIndexManager {
    fn single_query(&self, db: &str, collection: &str, s: &IndexStrategy) -> (r: Option<
        IndexQuery,
    >)
        ensures
            match r {
                Some(q) => field_query(self.prefix@, db@, collection@, s@) == Some(q@),
                None => field_query(self.prefix@, db@, collection@, s@) is None,
            },
    {
        match s {
            IndexStrategy::NumericRange { field, min, max } => Some(
                IndexQuery::Range {
                    key: self.idx_key_numeric(db, collection, field.as_str()),
                    min: *min,
                    max: *max,
                },
            ),
            IndexStrategy::TagExact { field, value } => Some(
                IndexQuery::Members {
                    key: self.idx_key_tag(db, collection, field.as_str(), value.as_str()),
                },
            ),
            IndexStrategy::StringExact { field, value } => Some(
                IndexQuery::Value {
                    key: self.idx_key_string(db, collection, field.as_str(), value.as_str()),
                },
            ),
            _ => None,
        }
    }

    /// The looks into indexes that a strategy asks for.
    pub fn queries(&self, db: &str, collection: &str, s: &IndexStrategy) -> (r: Vec<IndexQuery>)
        ensures
            index_query_views(r@) == strategy_queries(self.prefix@, db@, collection@, s@),
    {
        let ghost p = self.prefix@;
        let mut r: Vec<IndexQuery> = Vec::new();
        assert(index_query_views(r@) == Seq::<IndexQueryView>::empty());
        match s {
            IndexStrategy::TagsAnd { field, values } => {
                if values.len() > 0 {
                    let ghost all = texts(values@).map_values(
                        |v: Seq<char>| tag_name(p, db@, collection@, field@, v),
                    );
                    let mut keys: Vec<String> = Vec::new();
                    let mut i: usize = 0;
                    assert(texts(keys@) == all.take(0));
                    while i < values.len()
                        invariant
                            i <= values@.len(),
                            p == self.prefix@,
                            all == texts(values@).map_values(
                                |v: Seq<char>| tag_name(p, db@, collection@, field@, v),
                            ),
                            texts(keys@) == all.take(i as int),
                        decreases values@.len() - i,
                    {
                        let ghost before = texts(keys@);
                        let k = self.idx_key_tag(db, collection, field.as_str(), values[i].as_str());
                        let ghost x = k@;
                        assert(x == all[i as int]);
                        keys.push(k);
                        assert(texts(keys@) == before.push(x));
                        assert(all.take(i + 1) == all.take(i as int).push(x));
                        i = i + 1;
                    }
                    assert(all.take(i as int) == all);
                    let q = IndexQuery::Common { keys };
                    let ghost qv = q@;
                    r.push(q);
                    assert(index_query_views(r@) == seq![qv]);
                }
            },
            IndexStrategy::Composite(parts) => {
                let ghost all = crate::plan::strategy_views(parts@);
                assert(s@->Composite_0 == all);
                let mut i: usize = 0;
                assert(all.take(0) == Seq::<StrategyView>::empty());
                while i < parts.len()
                    invariant
                        i <= parts@.len(),
                        p == self.prefix@,
                        all == crate::plan::strategy_views(parts@),
                        index_query_views(r@) == part_queries(
                            p,
                            db@,
                            collection@,
                            all.take(i as int),
                        ),
                    decreases parts@.len() - i,
                {
                    assert(all.take(i + 1).drop_last() == all.take(i as int));
                    assert(all.take(i + 1).last() == all[i as int]);
                    if let Some(q) = self.single_query(db, collection, &parts[i]) {
                        let ghost before = index_query_views(r@);
                        let ghost qv = q@;
                        r.push(q);
                        assert(index_query_views(r@) == before.push(qv));
                    }
                    i = i + 1;
                }
                assert(all.take(i as int) == all);
            },
            _ => {
                if let Some(q) = self.single_query(db, collection, s) {
                    let ghost qv = q@;
                    r.push(q);
                    assert(index_query_views(r@) == seq![qv]);
                }
            },
        }
        r
    }
}

fn holds_text(list: &Vec<String>, s: &str) -> (r: bool)
    ensures
        r == texts(list@).contains(s@),
{
    let mut i: usize = 0;
    while i < list.len()
        invariant
            i <= list@.len(),
            forall|j: int| 0 <= j < i ==> (#[trigger] texts(list@)[j]) != s@,
        decreases list@.len() - i,
    {
        if same_text(list[i].as_str(), s) {
            assert(texts(list@)[i as int] == s@);
            return true;
        }
        i = i + 1;
    }
    false
}

fn keep_in(a: Vec<String>, b: &Vec<String>) -> (r: Vec<String>)
    ensures
        texts(r@) == kept_in(texts(a@), texts(b@)),
{
    let ghost all = texts(a@);
    let mut r: Vec<String> = Vec::new();
    let mut i: usize = 0;
    assert(texts(r@) == all.take(0));
    while i < a.len()
        invariant
            i <= a@.len(),
            all == texts(a@),
            texts(r@) == kept_in(all.take(i as int), texts(b@)),
        decreases a@.len() - i,
    {
        assert(all.take(i + 1).drop_last() == all.take(i as int));
        assert(all.take(i + 1).last() == all[i as int]);
        if holds_text(b, a[i].as_str()) {
            let ghost before = texts(r@);
            r.push(a[i].clone());
            assert(texts(r@) == before.push(all[i as int]));
        }
        i = i + 1;
    }
    assert(all.take(i as int) == all);
    r
}

/// A copy of a list of texts.
pub fn copy_texts(a: &Vec<String>) -> (r: Vec<String>)
    ensures
        texts(r@) == texts(a@),
{
    let ghost all = texts(a@);
    let mut r: Vec<String> = Vec::new();
    let mut i: usize = 0;
    assert(texts(r@) == all.take(0));
    while i < a.len()
        invariant
            i <= a@.len(),
            all == texts(a@),
            texts(r@) == all.take(i as int),
        decreases a@.len() - i,
    {
        let ghost before = texts(r@);
        r.push(a[i].clone());
        assert(texts(r@) == before.push(all[i as int]));
        assert(all.take(i + 1) == before.push(all[i as int]));
        i = i + 1;
    }
    assert(all.take(i as int) == all);
    r
}

/// The ids that the answers to the looks into indexes give for a strategy.
pub fn ids_from_replies(s: &IndexStrategy, replies: &Vec<Vec<String>>) -> (r: Vec<String>)
    ensures
        texts(r@) == found_ids(s@, text_lists(replies@)),
{
    let ghost lists = text_lists(replies@);
    match s {
        IndexStrategy::PrimaryKeyLookup { id } => {
            let mut r: Vec<String> = Vec::new();
            r.push(id.clone());
            assert(texts(r@) == seq![id@]);
            r
        },
        IndexStrategy::Composite(_) => {
            let mut r: Vec<String> = Vec::new();
            let mut seen: bool = false;
            let mut i: usize = 0;
            assert(lists.take(0) == Seq::<Seq<Seq<char>>>::empty());
            assert(texts(r@) == Seq::<Seq<char>>::empty());
            while i < replies.len()
                invariant
                    i <= replies@.len(),
                    lists == text_lists(replies@),
                    texts(r@) == common(nonempty_lists(lists.take(i as int))),
                    seen == (nonempty_lists(lists.take(i as int)).len() > 0),
                decreases replies@.len() - i,
            {
                assert(lists.take(i + 1).drop_last() == lists.take(i as int));
                assert(lists.take(i + 1).last() == lists[i as int]);
                let ghost have = nonempty_lists(lists.take(i as int));
                if replies[i].len() > 0 {
                    let ghost next = have.push(lists[i as int]);
                    assert(next.drop_last() == have);
                    if seen {
                        r = keep_in(r, &replies[i]);
                    } else {
                        r = copy_texts(&replies[i]);
                        assert(next.len() == 1 && next[0] == lists[i as int]);
                    }
                    seen = true;
                }
                i = i + 1;
            }
            assert(lists.take(i as int) == lists);
            r
        },
        _ => {
            if replies.len() == 0 {
                let r: Vec<String> = Vec::new();
                assert(texts(r@) == Seq::<Seq<char>>::empty());
                r
            } else {
                copy_texts(&replies[0])
            }
        },
    }
}

/// The documents that were found among those that were looked for.
pub open spec fn present(docs: Seq<Option<JsonView>>) -> Seq<JsonView>
    decreases docs.len(),
{
    if docs.len() == 0 {
        Seq::empty()
    } else {
        match docs.last() {
            Some(d) => present(docs.drop_last()).push(d),
            None => present(docs.drop_last()),
        }
    }
}

pub open spec fn own_views(s: Seq<Option<Json>>) -> Seq<Option<JsonView>> {
    s.map_values(|d: Option<Json>| own_view(d))
}

/// The documents that were found among those that were looked for.
pub fn found_docs(docs: &Vec<Option<Json>>) -> (r: Vec<Json>)
    ensures
        views(r@) == present(own_views(docs@)),
{
    let ghost all = own_views(docs@);
    let mut r: Vec<Json> = Vec::new();
    let mut i: usize = 0;
    assert(all.take(0) == Seq::<Option<JsonView>>::empty());
    assert(views(r@) == Seq::<JsonView>::empty());
    while i < docs.len()
        invariant
            i <= docs@.len(),
            all == own_views(docs@),
            views(r@) == present(all.take(i as int)),
        decreases docs@.len() - i,
    {
        assert(all.take(i + 1).drop_last() == all.take(i as int));
        assert(all.take(i + 1).last() == all[i as int]);
        match &docs[i] {
            Some(d) => {
                let ghost before = views(r@);
                r.push(d.clone());
                assert(views(r@) == before.push(d@));
            },
            None => {},
        }
        i = i + 1;
    }
    assert(all.take(i as int) == all);
    r
}

proof fn lemma_kept_in(a: Seq<Seq<char>>, b: Seq<Seq<char>>)
    ensures
        forall|x: Seq<char>| #[trigger]
            kept_in(a, b).contains(x) <==> a.contains(x) && b.contains(x),
    decreases a.len(),
{
    if a.len() > 0 {
        let d = a.drop_last();
        lemma_kept_in(d, b);
        let k = kept_in(d, b);
        let m = kept_in(a, b);
        assert(m == if b.contains(a.last()) {
            k.push(a.last())
        } else {
            k
        });
        assert forall|x: Seq<char>| #[trigger] m.contains(x) <==> a.contains(x) && b.contains(
            x,
        ) by {
            if m.contains(x) {
                let i = choose|i: int| 0 <= i < m.len() && m[i] == x;
                if i < k.len() {
                    assert(k[i] == x);
                    assert(k.contains(x));
                    assert(d.contains(x));
                    let j = choose|j: int| 0 <= j < d.len() && d[j] == x;
                    assert(a[j] == x);
                } else {
                    assert(a[a.len() - 1] == x);
                }
            }
            if a.contains(x) && b.contains(x) {
                let i = choose|i: int| 0 <= i < a.len() && a[i] == x;
                if i < d.len() {
                    assert(d[i] == x);
                    assert(d.contains(x));
                    assert(k.contains(x));
                    let j = choose|j: int| 0 <= j < k.len() && k[j] == x;
                    assert(m[j] == x);
                } else {
                    assert(m[k.len() as int] == x);
                }
            }
        }
    }
}

/// The common ids are those that stand in every list.
pub proof fn lemma_common(lists: Seq<Seq<Seq<char>>>, x: Seq<char>)
    requires
        lists.len() > 0,
    ensures
        common(lists).contains(x) <==> forall|i: int|
            0 <= i < lists.len() ==> (#[trigger] lists[i]).contains(x),
    decreases lists.len(),
{
    if lists.len() > 1 {
        let d = lists.drop_last();
        lemma_common(d, x);
        lemma_kept_in(common(d), lists.last());
        assert(lists[lists.len() - 1] == lists.last());
        if common(d).contains(x) && lists.last().contains(x) {
            assert forall|i: int| 0 <= i < lists.len() implies (#[trigger] lists[i]).contains(x) by {
                if i < d.len() {
                    assert(d[i].contains(x));
                }
            }
        }
        if forall|i: int| 0 <= i < lists.len() ==> (#[trigger] lists[i]).contains(x) {
            assert forall|i: int| 0 <= i < d.len() implies (#[trigger] d[i]).contains(x) by {
                assert(d[i] == lists[i]);
            }
        }
    }
}

} // verus!
