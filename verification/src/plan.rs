//! How a filter can be answered from an index.

use crate::filter::{is_operator_object, is_operators};
use crate::float;
use crate::json::{entry_views, views, Json, JsonView};
use crate::object::{field, float_of};
use crate::text::{begins_with, owned, same_text, starts_with, texts};
use crate::wire::{bare_text_of, json_to_string};
use vstd::prelude::*;

verus! {

broadcast use crate::json::group_json_views;

/// Which index entries to look up.  The bounds of a numeric range are the bits
/// of floats and belong to the range.
#[derive(Debug)]
pub enum IndexStrategy {
    PrimaryKeyLookup { id: String },
    NumericRange { field: String, min: u64, max: u64 },
    TagExact { field: String, value: String },
    StringExact { field: String, value: String },
    TagsAnd { field: String, values: Vec<String> },
    Composite(Vec<IndexStrategy>),
    NoIndex,
}

/// What a strategy is.
#[verifier::ext_equal]
pub enum StrategyView {
    PrimaryKeyLookup { id: Seq<char> },
    NumericRange { field: Seq<char>, min: u64, max: u64 },
    TagExact { field: Seq<char>, value: Seq<char> },
    StringExact { field: Seq<char>, value: Seq<char> },
    TagsAnd { field: Seq<char>, values: Seq<Seq<char>> },
    Composite(Seq<StrategyView>),
    NoIndex,
}

pub open spec fn strategy_view(s: IndexStrategy) -> StrategyView
    decreases s,
{
    match s {
        IndexStrategy::PrimaryKeyLookup { id } => StrategyView::PrimaryKeyLookup { id: id@ },
        IndexStrategy::NumericRange { field, min, max } => StrategyView::NumericRange {
            field: field@,
            min,
            max,
        },
        IndexStrategy::TagExact { field, value } => StrategyView::TagExact {
            field: field@,
            value: value@,
        },
        IndexStrategy::StringExact { field, value } => StrategyView::StringExact {
            field: field@,
            value: value@,
        },
        IndexStrategy::TagsAnd { field, values } => StrategyView::TagsAnd {
            field: field@,
            values: texts(values@),
        },
        IndexStrategy::Composite(parts) => StrategyView::Composite(
            Seq::new(
                parts@.len(),
                |i: int|
                    if 0 <= i < parts@.len() {
                        strategy_view(parts@[i])
                    } else {
                        arbitrary()
                    },
            ),
        ),
        IndexStrategy::NoIndex => StrategyView::NoIndex,
    }
}

impl View for IndexStrategy {
    type V = StrategyView;

    open spec fn view(&self) -> StrategyView {
        strategy_view(*self)
    }
}

/// The views of a list of strategies.
pub open spec fn strategy_views(s: Seq<IndexStrategy>) -> Seq<StrategyView> {
    s.map_values(|x: IndexStrategy| x@)
}

pub open spec fn opt_strategy(s: Option<IndexStrategy>) -> Option<StrategyView> {
    match s {
        Some(x) => Some(x@),
        None => None,
    }
}

/// How a filter is answered.
#[derive(Debug)]
pub struct QueryPlan {
    pub can_use_redis: bool,
    pub index_strategy: IndexStrategy,
    pub fallback_to_mongo: bool,
}

/// What a plan is.
#[verifier::ext_equal]
pub struct PlanView {
    pub can_use_redis: bool,
    pub index_strategy: StrategyView,
    pub fallback_to_mongo: bool,
}

impl View for QueryPlan {
    type V = PlanView;

    open spec fn view(&self) -> PlanView {
        PlanView {
            can_use_redis: self.can_use_redis,
            index_strategy: self.index_strategy@,
            fallback_to_mongo: self.fallback_to_mongo,
        }
    }
}

/// The plan that looks up an index.
pub open spec fn index_plan(s: StrategyView) -> PlanView {
    PlanView { can_use_redis: true, index_strategy: s, fallback_to_mongo: false }
}

/// The plan that looks up no index.
pub open spec fn scan_plan() -> PlanView {
    PlanView {
        can_use_redis: false,
        index_strategy: StrategyView::NoIndex,
        fallback_to_mongo: true,
    }
}

/// Where a field that equals a value is looked up: numbers in the numeric
/// index, all else among the tags.
pub open spec fn equality_strategy(field: Seq<char>, v: JsonView) -> StrategyView {
    match float_of(v) {
        Some(n) => StrategyView::NumericRange { field, min: n, max: n },
        None => StrategyView::TagExact { field, value: bare_text_of(v) },
    }
}

/// The texts of a list of values.
pub open spec fn bare_texts(a: Seq<JsonView>) -> Seq<Seq<char>> {
    a.map_values(|v: JsonView| bare_text_of(v))
}

/// Where a field is looked up that meets one operator.  Strict bounds are moved
/// by the distance from one to the next larger float.
pub open spec fn operator_strategy(
    field: Seq<char>,
    op: Seq<char>,
    arg: JsonView,
) -> Option<StrategyView> {
    let n = float_of(arg);
    if op == "$eq"@ {
        Some(equality_strategy(field, arg))
    } else if op == "$gt"@ && n is Some {
        Some(
            StrategyView::NumericRange {
                field,
                min: float::sum(n->Some_0, float::EPSILON),
                max: float::INFINITY,
            },
        )
    } else if op == "$gte"@ && n is Some {
        Some(StrategyView::NumericRange { field, min: n->Some_0, max: float::INFINITY })
    } else if op == "$lt"@ && n is Some {
        Some(
            StrategyView::NumericRange {
                field,
                min: float::NEG_INFINITY,
                max: float::sum(n->Some_0, float::NEG_EPSILON),
            },
        )
    } else if op == "$lte"@ && n is Some {
        Some(StrategyView::NumericRange { field, min: float::NEG_INFINITY, max: n->Some_0 })
    } else if op == "$in"@ && arg is Array {
        Some(StrategyView::TagsAnd { field, values: bare_texts(arg->Array_0) })
    } else {
        None
    }
}

/// Where a field is looked up by the first of some operators that an index can
/// answer.
pub open spec fn first_strategy(
    field: Seq<char>,
    o: Seq<(Seq<char>, JsonView)>,
) -> Option<StrategyView>
    decreases o.len(),
{
    if o.len() == 0 {
        None
    } else {
        match operator_strategy(field, o[0].0, o[0].1) {
            Some(s) => Some(s),
            None => first_strategy(field, o.drop_first()),
        }
    }
}

/// Where a field is looked up that meets a query.
pub open spec fn condition_strategy(field: Seq<char>, q: JsonView) -> Option<StrategyView> {
    if begins_with(field, "$"@) || field == "_id"@ {
        None
    } else if !is_operators(q) {
        Some(equality_strategy(field, q))
    } else {
        first_strategy(field, q->Object_0)
    }
}

/// Where the fields of an object of queries are looked up.
pub open spec fn entry_strategies(o: Seq<(Seq<char>, JsonView)>) -> Seq<StrategyView>
    decreases o.len(),
{
    if o.len() == 0 {
        Seq::empty()
    } else {
        let head = entry_strategies(o.drop_last());
        match condition_strategy(o.last().0, o.last().1) {
            Some(s) => head.push(s),
            None => head,
        }
    }
}

/// Where the fields of a list of filters are looked up.
pub open spec fn list_strategies(a: Seq<JsonView>) -> Seq<StrategyView>
    decreases a.len(),
{
    if a.len() == 0 {
        Seq::empty()
    } else {
        list_strategies(a.drop_last()) + match a.last() {
            JsonView::Object(o) => entry_strategies(o),
            _ => Seq::empty(),
        }
    }
}

/// The strategies of the filters under `$and`.
pub open spec fn and_strategies(filter: JsonView) -> Seq<StrategyView> {
    match field(filter, "$and"@) {
        Some(JsonView::Array(a)) => list_strategies(a),
        _ => Seq::empty(),
    }
}

/// How a filter is answered: by `_id` where that is asked for, by the only
/// field that is asked for, or by the fields under `$and`.
pub open spec fn plan_of(filter: JsonView) -> PlanView {
    match filter {
        JsonView::Object(o) => {
            let id = field(filter, "_id"@);
            if id is Some && !is_operators(id->Some_0) {
                index_plan(StrategyView::PrimaryKeyLookup { id: bare_text_of(id->Some_0) })
            } else if o.len() == 1 && condition_strategy(o[0].0, o[0].1) is Some {
                index_plan(condition_strategy(o[0].0, o[0].1)->Some_0)
            } else if and_strategies(filter).len() > 0 {
                index_plan(StrategyView::Composite(and_strategies(filter)))
            } else {
                scan_plan()
            }
        },
        _ => scan_plan(),
    }
}

/// The fields that a filter asks about.
pub open spec fn fields_of(filter: JsonView) -> Seq<Seq<char>>
    decreases filter, 1int,
{
    match filter {
        JsonView::Object(o) => entries_fields(o),
        _ => Seq::empty(),
    }
}

/// The fields that the entries of a filter ask about.
pub open spec fn entries_fields(o: Seq<(Seq<char>, JsonView)>) -> Seq<Seq<char>>
    decreases o, 0int,
{
    if o.len() == 0 {
        Seq::empty()
    } else {
        entries_fields(o.drop_last()) + entry_fields(o.last().0, o.last().1)
    }
}

/// The fields that one entry of a filter asks about.
pub open spec fn entry_fields(k: Seq<char>, v: JsonView) -> Seq<Seq<char>>
    decreases v, 2int,
{
    if k == "$and"@ || k == "$or"@ || k == "$nor"@ {
        match v {
            JsonView::Array(a) => list_fields(a),
            _ => Seq::empty(),
        }
    } else if k == "$not"@ {
        fields_of(v)
    } else if begins_with(k, "$"@) {
        Seq::empty()
    } else {
        seq![k]
    }
}

/// The fields that a list of filters asks about.
pub open spec fn list_fields(a: Seq<JsonView>) -> Seq<Seq<char>>
    decreases a, 0int,
{
    if a.len() == 0 {
        Seq::empty()
    } else {
        list_fields(a.drop_last()) + fields_of(a.last())
    }
}

fn by_equality(field: &str, v: &Json) -> (r: IndexStrategy)
    ensures
        r@ == equality_strategy(field@, v@),
{
    match v.as_float() {
        Some(n) => IndexStrategy::NumericRange { field: owned(field), min: n, max: n },
        None => IndexStrategy::TagExact { field: owned(field), value: json_to_string(v) },
    }
}

/// The texts of a list of values.
pub fn text_list(a: &Vec<Json>) -> (r: Vec<String>)
    ensures
        texts(r@) == bare_texts(views(a@)),
{
    let mut r: Vec<String> = Vec::new();
    let mut i: usize = 0;
    while i < a.len()
        invariant
            i <= a@.len(),
            texts(r@) == bare_texts(views(a@)).take(i as int),
        decreases a@.len() - i,
    {
        let ghost before = texts(r@);
        let t = json_to_string(&a[i]);
        let ghost u = t@;
        r.push(t);
        assert(texts(r@) == before.push(u));
        assert(bare_texts(views(a@)).take(i + 1) == before.push(u));
        i = i + 1;
    }
    assert(bare_texts(views(a@)).take(i as int) == bare_texts(views(a@)));
    r
}

fn by_operator(field: &str, op: &str, arg: &Json) -> (r: Option<IndexStrategy>)
    ensures
        opt_strategy(r) == operator_strategy(field@, op@, arg@),
{
    if same_text(op, "$eq") {
        return Some(by_equality(field, arg));
    }
    if let Some(n) = arg.as_float() {
        assert(float::is_finite(float::EPSILON) && float::is_finite(float::NEG_EPSILON));
        if same_text(op, "$gt") {
            return Some(
                IndexStrategy::NumericRange {
                    field: owned(field),
                    min: float::add_floats(n, float::EPSILON),
                    max: float::INFINITY,
                },
            );
        }
        if same_text(op, "$gte") {
            return Some(
                IndexStrategy::NumericRange { field: owned(field), min: n, max: float::INFINITY },
            );
        }
        if same_text(op, "$lt") {
            return Some(
                IndexStrategy::NumericRange {
                    field: owned(field),
                    min: float::NEG_INFINITY,
                    max: float::add_floats(n, float::NEG_EPSILON),
                },
            );
        }
        if same_text(op, "$lte") {
            return Some(
                IndexStrategy::NumericRange {
                    field: owned(field),
                    min: float::NEG_INFINITY,
                    max: n,
                },
            );
        }
    }
    if let Json::Array(a) = arg {
        if same_text(op, "$in") {
            return Some(IndexStrategy::TagsAnd { field: owned(field), values: text_list(a) });
        }
    }
    None
}

fn by_entries(o: &Vec<(String, Json)>, out: &mut Vec<IndexStrategy>)
    ensures
        strategy_views(final(out)@) == strategy_views(old(out)@) + entry_strategies(
            entry_views(o@),
        ),
{
    let ghost start = strategy_views(out@);
    let ghost e = entry_views(o@);
    let mut i: usize = 0;
    assert(e.take(0) == Seq::<(Seq<char>, JsonView)>::empty());
    assert(strategy_views(out@) == start + entry_strategies(e.take(0)));
    while i < o.len()
        invariant
            i <= o@.len(),
            e == entry_views(o@),
            strategy_views(out@) == start + entry_strategies(e.take(i as int)),
        decreases o@.len() - i,
    {
        assert(e.take(i + 1).drop_last() == e.take(i as int));
        assert(e.take(i + 1).last() == e[i as int]);
        let ghost before = strategy_views(out@);
        let ghost head = entry_strategies(e.take(i as int));
        if let Some(s) = QueryPlanAnalyzer::analyze_field_condition(o[i].0.as_str(), &o[i].1) {
            let ghost x = s@;
            out.push(s);
            assert(strategy_views(out@) == before.push(x));
            assert(before.push(x) == start + head.push(x));
        }
        i = i + 1;
    }
    assert(e.take(i as int) == e);
}

/// Decides how filters are answered.
pub struct QueryPlanAnalyzer;

impl QueryPlanAnalyzer {
    /// Where a field is looked up that meets a query.
    pub fn analyze_field_condition(field: &str, value: &Json) -> (r: Option<IndexStrategy>)
        ensures
            opt_strategy(r) == condition_strategy(field@, value@),
    {
        if starts_with(field, "$") || same_text(field, "_id") {
            return None;
        }
        if !is_operator_object(value) {
            return Some(by_equality(field, value));
        }
        match value {
            Json::Object(o) => {
                let ghost e = entry_views(o@);
                let mut i: usize = 0;
                assert(e.skip(0) == e);
                while i < o.len()
                    invariant
                        i <= o@.len(),
                        e == entry_views(o@),
                        value@ == JsonView::Object(e),
                        is_operators(value@),
                        !begins_with(field@, "$"@),
                        field@ != "_id"@,
                        first_strategy(field@, e.skip(i as int)) == first_strategy(field@, e),
                    decreases o@.len() - i,
                {
                    assert(e.skip(i as int).drop_first() == e.skip(i + 1));
                    assert(e.skip(i as int)[0] == e[i as int]);
                    if let Some(s) = by_operator(field, o[i].0.as_str(), &o[i].1) {
                        return Some(s);
                    }
                    i = i + 1;
                }
                None
            },
            _ => None,
        }
    }

    /// How a filter is answered.
    pub fn analyze(filter: &Json) -> (r: QueryPlan)
        ensures
            r@ == plan_of(filter@),
    {
        if let Json::Object(o) = filter {
            if let Some(id) = filter.get("_id") {
                if !is_operator_object(id) {
                    return QueryPlan {
                        can_use_redis: true,
                        index_strategy: IndexStrategy::PrimaryKeyLookup { id: json_to_string(id) },
                        fallback_to_mongo: false,
                    };
                }
            }
            if o.len() == 1 {
                assert(filter@->Object_0[0] == (o@[0].0@, o@[0].1@));
                if let Some(s) = Self::analyze_field_condition(o[0].0.as_str(), &o[0].1) {
                    return QueryPlan {
                        can_use_redis: true,
                        index_strategy: s,
                        fallback_to_mongo: false,
                    };
                }
            }
            if let Some(Json::Array(a)) = filter.get("$and") {
                let mut parts: Vec<IndexStrategy> = Vec::new();
                let ghost list = views(a@);
                let mut i: usize = 0;
                assert(list.take(0) == Seq::<JsonView>::empty());
                assert(strategy_views(parts@) == list_strategies(list.take(0)));
                while i < a.len()
                    invariant
                        i <= a@.len(),
                        list == views(a@),
                        strategy_views(parts@) == list_strategies(list.take(i as int)),
                    decreases a@.len() - i,
                {
                    assert(list.take(i + 1).drop_last() == list.take(i as int));
                    assert(list.take(i + 1).last() == list[i as int]);
                    let ghost head = list_strategies(list.take(i as int));
                    assert(head + Seq::<StrategyView>::empty() == head);
                    if let Json::Object(cond) = &a[i] {
                        by_entries(cond, &mut parts);
                    }
                    i = i + 1;
                }
                assert(list.take(i as int) == list);
                if parts.len() > 0 {
                    let s = IndexStrategy::Composite(parts);
                    assert(s@->Composite_0 == strategy_views(parts@));
                    return QueryPlan {
                        can_use_redis: true,
                        index_strategy: s,
                        fallback_to_mongo: false,
                    };
                }
            }
        }
        QueryPlan {
            can_use_redis: false,
            index_strategy: IndexStrategy::NoIndex,
            fallback_to_mongo: true,
        }
    }

    /// The fields that a filter asks about.
    pub fn extract_indexable_fields(filter: &Json) -> (r: Vec<String>)
        ensures
            texts(r@) == fields_of(filter@),
    {
        let mut fields: Vec<String> = Vec::new();
        assert(texts(fields@) == Seq::<Seq<char>>::empty());
        gather_fields(filter, &mut fields);
        assert(Seq::<Seq<char>>::empty() + fields_of(filter@) == fields_of(filter@));
        fields
    }
}

/// Adds the fields that a filter asks about.
fn gather_fields(filter: &Json, out: &mut Vec<String>)
    ensures
        texts(final(out)@) == texts(old(out)@) + fields_of(filter@),
    decreases filter, 1int,
{
    let ghost start = texts(out@);
    match filter {
        Json::Object(o) => {
            let ghost e = entry_views(o@);
            let mut i: usize = 0;
            assert(e.take(0) == Seq::<(Seq<char>, JsonView)>::empty());
            assert(texts(out@) == start + entries_fields(e.take(0)));
            while i < o.len()
                invariant
                    i <= o@.len(),
                    *filter == Json::Object(*o),
                    e == entry_views(o@),
                    texts(out@) == start + entries_fields(e.take(i as int)),
                decreases o@.len() - i,
            {
                assert(e.take(i + 1).drop_last() == e.take(i as int));
                assert(e.take(i + 1).last() == e[i as int]);
                assert(decreases_to!(*filter => filter->Object_0));
                assert(decreases_to!(*o => o@[i as int]));
                assert(decreases_to!(o@[i as int] => o@[i as int].1));
                gather_entry_fields(o[i].0.as_str(), &o[i].1, out);
                assert(texts(out@) == start + entries_fields(e.take(i + 1)));
                i = i + 1;
            }
            assert(e.take(i as int) == e);
        },
        _ => {
            assert(start + Seq::<Seq<char>>::empty() == start);
        },
    }
}

/// Adds the fields that one entry of a filter asks about.
fn gather_entry_fields(k: &str, v: &Json, out: &mut Vec<String>)
    ensures
        texts(final(out)@) == texts(old(out)@) + entry_fields(k@, v@),
    decreases v, 2int,
{
    let ghost start = texts(out@);
    assert(start + Seq::<Seq<char>>::empty() == start);
    if same_text(k, "$and") || same_text(k, "$or") || same_text(k, "$nor") {
        if let Json::Array(a) = v {
            let ghost list = views(a@);
            let mut i: usize = 0;
            assert(list.take(0) == Seq::<JsonView>::empty());
            assert(texts(out@) == start + list_fields(list.take(0)));
            while i < a.len()
                invariant
                    i <= a@.len(),
                    *v == Json::Array(*a),
                    list == views(a@),
                    texts(out@) == start + list_fields(list.take(i as int)),
                decreases a@.len() - i,
            {
                assert(list.take(i + 1).drop_last() == list.take(i as int));
                assert(list.take(i + 1).last() == list[i as int]);
                assert(decreases_to!(*v => v->Array_0));
                assert(decreases_to!(*a => a@[i as int]));
                gather_fields(&a[i], out);
                assert(texts(out@) == start + list_fields(list.take(i + 1)));
                i = i + 1;
            }
            assert(list.take(i as int) == list);
        }
    } else if same_text(k, "$not") {
        gather_fields(v, out);
    } else if !starts_with(k, "$") {
        out.push(owned(k));
        assert(texts(out@) == start + seq![k@]);
    }
}

/// A plan uses an index exactly where it has a strategy, and falls back exactly
/// where it has none.
pub proof fn lemma_plan_uses_index_or_falls_back(filter: JsonView)
    ensures
        plan_of(filter).can_use_redis == !plan_of(filter).fallback_to_mongo,
        plan_of(filter).can_use_redis == !(plan_of(filter).index_strategy is NoIndex),
{
    if let JsonView::Object(o) = filter {
        if o.len() == 1 {
            lemma_condition_simple(o[0].0, o[0].1);
        }
    }
}

/// Whether a strategy looks up one field.
pub open spec fn is_simple(s: StrategyView, field: Seq<char>) -> bool {
    match s {
        StrategyView::NumericRange { field: f, .. } => f == field,
        StrategyView::TagExact { field: f, .. } => f == field,
        StrategyView::TagsAnd { field: f, .. } => f == field,
        _ => false,
    }
}

/// A query on a field is looked up in an index on that field.
pub proof fn lemma_condition_simple(field: Seq<char>, q: JsonView)
    ensures
        condition_strategy(field, q) matches Some(s) ==> is_simple(s, field),
{
    if is_operators(q) {
        lemma_first_simple(field, q->Object_0);
    }
}

proof fn lemma_first_simple(field: Seq<char>, o: Seq<(Seq<char>, JsonView)>)
    ensures
        first_strategy(field, o) matches Some(s) ==> is_simple(s, field),
    decreases o.len(),
{
    if o.len() > 0 {
        lemma_first_simple(field, o.drop_first());
    }
}

} // verus!
