//! What the indexes hold of documents, and which documents a filter finds
//! through them.

use crate::autoindex::{
    field_forgotten, index_note, lemma_field_from_stats_name, named_field, popular_field, query_record, stats_name,
    StatsView,
};
use crate::collection::observed;
use crate::filter::is_operators;
use crate::float;
use crate::json::JsonView;
use crate::keys::{
    additions, doc_id_of, field_additions, field_base, lemma_doc_names_differ, link, numeric_name, string_name,
    tag_name, tags_of, CommandView, IndexType,
};
use crate::object::{field, float_of, lemma_key_at_is};
use crate::plan::{
    and_strategies, bare_texts, condition_strategy, entries_fields, entry_fields, entry_strategies, equality_strategy,
    fields_of, first_strategy, list_fields, list_strategies, operator_strategy, plan_of, StrategyView,
};
use crate::querylaws::{
    has_field, integer, is_name, is_short, lacks_field, lemma_field_is_read, lemma_missing_field, where_equal,
    where_field,
};
use crate::select::{common, found_ids, kept_in, nonempty_lists, strategy_queries, IndexQueryView};
use crate::text::{
    begins_with, decimal_text, lemma_segment_has_no_separator, lemma_segment_injective, segment,
};
use vstd::prelude::*;

verus! {

/// Whether a number lies between two bounds, each of which belongs to the range
/// and may be infinite.
pub open spec fn lies_between(n: u64, min: u64, max: u64) -> bool {
    (min == float::NEG_INFINITY || float::exact(min) <= float::exact(n)) && (max == float::INFINITY
        || float::exact(n) <= float::exact(max))
}

/// Whether changes put an id under a name with a number.
pub open spec fn scored(c: Seq<CommandView>, key: Seq<char>, id: Seq<char>, score: u64) -> bool {
    c.contains(CommandView::ZAdd { key, member: id, score })
}

/// Whether changes put an id under a name with a number between two bounds.
pub open spec fn scored_between(
    c: Seq<CommandView>,
    key: Seq<char>,
    id: Seq<char>,
    min: u64,
    max: u64,
) -> bool {
    exists|n: u64| #[trigger] scored(c, key, id, n) && lies_between(n, min, max)
}

/// Whether changes put an id under a name.
pub open spec fn tagged(c: Seq<CommandView>, key: Seq<char>, id: Seq<char>) -> bool {
    c.contains(CommandView::SAdd { key, member: id })
}

/// Whether a look into an index that was filled by some changes finds an id.
pub open spec fn finds(q: IndexQueryView, c: Seq<CommandView>, id: Seq<char>) -> bool {
    match q {
        IndexQueryView::Range { key, min, max } => scored_between(c, key, id, min, max),
        IndexQueryView::Members { key } => tagged(c, key, id),
        IndexQueryView::Value { key } => c.contains(CommandView::Put { key, value: id }),
        IndexQueryView::Common { keys } => forall|i: int|
            0 <= i < keys.len() ==> #[trigger] tagged(c, keys[i], id),
    }
}

/// Whether the one look that a filter asks for finds a document by the index on
/// a field.
pub open spec fn is_found(
    filter: JsonView,
    def: (Seq<char>, IndexType),
    prefix: Seq<char>,
    db: Seq<char>,
    collection: Seq<char>,
    id: Seq<char>,
    doc: JsonView,
) -> bool {
    let looks = strategy_queries(prefix, db, collection, plan_of(filter).index_strategy);
    looks.len() == 1 && finds(looks[0], additions(prefix, db, collection, seq![def], id, doc), id)
}

/// Whether a filter is answered by one look into an index.
pub open spec fn asks_once(
    filter: JsonView,
    prefix: Seq<char>,
    db: Seq<char>,
    collection: Seq<char>,
) -> bool {
    plan_of(filter).can_use_redis && strategy_queries(
        prefix,
        db,
        collection,
        plan_of(filter).index_strategy,
    ).len() == 1
}

proof fn lemma_last_part(a: Seq<char>, b: Seq<char>, c: Seq<char>, d: Seq<char>)
    requires
        link(a, b) == link(c, d),
        !b.contains(':'),
        !d.contains(':'),
    ensures
        a == c,
        b == d,
{
    let s = link(a, b);
    assert(s.len() == a.len() + 1 + b.len());
    assert(link(c, d).len() == c.len() + 1 + d.len());
    assert(s[a.len() as int] == ':');
    assert(s[c.len() as int] == ':') by {
        assert(link(c, d)[c.len() as int] == ':');
    }
    if a.len() < c.len() {
        assert(s[c.len() as int] == b[c.len() - a.len() - 1]);
    }
    if c.len() < a.len() {
        assert(link(c, d)[a.len() as int] == d[a.len() - c.len() - 1]);
    }
    assert(a == s.subrange(0, a.len() as int));
    assert(c == s.subrange(0, c.len() as int));
    assert(b == s.subrange(a.len() as int + 1, s.len() as int));
    assert(d == s.subrange(c.len() as int + 1, s.len() as int));
}

proof fn lemma_words_have_no_colon()
    ensures
        !"numeric"@.contains(':') && !"tag"@.contains(':') && !"string"@.contains(':'),
        "numeric"@ != "tag"@ && "tag"@ != "string"@ && "numeric"@ != "string"@,
{
    reveal_strlit("numeric");
    reveal_strlit("tag");
    reveal_strlit("string");
    assert("numeric"@.len() == 7);
    assert("tag"@.len() == 3);
    assert("string"@.len() == 6);
}

/// Index entries have the same name only if they are of the same value of the
/// same field of the same collection, and those of tags and of texts never
/// have.
pub proof fn lemma_index_names_differ(
    prefix: Seq<char>,
    db: Seq<char>,
    collection: Seq<char>,
    f: Seq<char>,
    v: Seq<char>,
    other_db: Seq<char>,
    other_collection: Seq<char>,
    g: Seq<char>,
    w: Seq<char>,
)
    ensures
        tag_name(prefix, db, collection, f, v) == tag_name(prefix, other_db, other_collection, g, w)
            ==> db == other_db && collection == other_collection && f == g && v == w,
        string_name(prefix, db, collection, f, v) == string_name(
            prefix,
            other_db,
            other_collection,
            g,
            w,
        ) ==> db == other_db && collection == other_collection && f == g && v == w,
        numeric_name(prefix, db, collection, f) == numeric_name(
            prefix,
            other_db,
            other_collection,
            g,
        ) ==> db == other_db && collection == other_collection && f == g,
        tag_name(prefix, db, collection, f, v) != string_name(
            prefix,
            other_db,
            other_collection,
            g,
            w,
        ),
{
    let a = field_base(prefix, db, collection, f);
    let b = field_base(prefix, other_db, other_collection, g);
    lemma_words_have_no_colon();
    lemma_segment_has_no_separator(v);
    lemma_segment_has_no_separator(w);
    if a == b {
        lemma_doc_names_differ(prefix, db, collection, f, other_db, other_collection, g);
    }
    if segment(v) == segment(w) {
        lemma_segment_injective(v, w);
    }
    if tag_name(prefix, db, collection, f, v) == tag_name(prefix, other_db, other_collection, g, w) {
        lemma_last_part(link(a, "tag"@), segment(v), link(b, "tag"@), segment(w));
        lemma_last_part(a, "tag"@, b, "tag"@);
    }
    if string_name(prefix, db, collection, f, v) == string_name(
        prefix,
        other_db,
        other_collection,
        g,
        w,
    ) {
        lemma_last_part(link(a, "string"@), segment(v), link(b, "string"@), segment(w));
        lemma_last_part(a, "string"@, b, "string"@);
    }
    if numeric_name(prefix, db, collection, f) == numeric_name(
        prefix,
        other_db,
        other_collection,
        g,
    ) {
        lemma_last_part(a, "numeric"@, b, "numeric"@);
    }
    if tag_name(prefix, db, collection, f, v) == string_name(
        prefix,
        other_db,
        other_collection,
        g,
        w,
    ) {
        lemma_last_part(link(a, "tag"@), segment(v), link(b, "string"@), segment(w));
        lemma_last_part(a, "tag"@, b, "string"@);
    }
}

proof fn lemma_one_def(
    prefix: Seq<char>,
    db: Seq<char>,
    collection: Seq<char>,
    def: (Seq<char>, IndexType),
    id: Seq<char>,
    doc: JsonView,
)
    ensures
        additions(prefix, db, collection, seq![def], id, doc) == field_additions(
            prefix,
            db,
            collection,
            def,
            id,
            doc,
        ),
{
    let d = seq![def];
    assert(d.drop_last() == Seq::<(Seq<char>, IndexType)>::empty());
    assert(additions(prefix, db, collection, d.drop_last(), id, doc) == Seq::<CommandView>::empty());
}

/// A document is in each of its indexes as if that were the only one, and in no
/// others.
pub proof fn lemma_indexes_are_independent(
    prefix: Seq<char>,
    db: Seq<char>,
    collection: Seq<char>,
    defs: Seq<(Seq<char>, IndexType)>,
    id: Seq<char>,
    doc: JsonView,
    c: CommandView,
)
    ensures
        additions(prefix, db, collection, defs, id, doc).contains(c) <==> exists|i: int|
            0 <= i < defs.len() && additions(
                prefix,
                db,
                collection,
                seq![#[trigger] defs[i]],
                id,
                doc,
            ).contains(c),
    decreases defs.len(),
{
    let all = additions(prefix, db, collection, defs, id, doc);
    if defs.len() > 0 {
        let d = defs.drop_last();
        let head = additions(prefix, db, collection, d, id, doc);
        let tail = field_additions(prefix, db, collection, defs.last(), id, doc);
        lemma_indexes_are_independent(prefix, db, collection, d, id, doc, c);
        lemma_one_def(prefix, db, collection, defs.last(), id, doc);
        assert(all.contains(c) <==> head.contains(c) || tail.contains(c)) by {
            if head.contains(c) {
                let i = choose|i: int| 0 <= i < head.len() && head[i] == c;
                assert(all[i] == c);
            }
            if tail.contains(c) {
                let i = choose|i: int| 0 <= i < tail.len() && tail[i] == c;
                assert(all[head.len() + i] == c);
            }
            if all.contains(c) {
                let i = choose|i: int| 0 <= i < all.len() && all[i] == c;
                if i < head.len() {
                    assert(head[i] == c);
                } else {
                    assert(tail[i - head.len()] == c);
                }
            }
        }
        if head.contains(c) {
            let i = choose|i: int|
                0 <= i < d.len() && additions(prefix, db, collection, seq![#[trigger] d[i]], id, doc).contains(c);
            assert(defs[i] == d[i]);
        }
        if tail.contains(c) {
            assert(defs[defs.len() - 1] == defs.last());
        }
        assert forall|i: int|
            0 <= i < defs.len() && additions(
                prefix,
                db,
                collection,
                seq![#[trigger] defs[i]],
                id,
                doc,
            ).contains(c) implies all.contains(c) by {
            if i < d.len() {
                assert(d[i] == defs[i]);
            }
        }
    }
}

proof fn lemma_operator(k: Seq<char>, op: Seq<char>, arg: JsonView, s: Option<StrategyView>)
    requires
        is_name(k),
        k != "_id"@,
        op.len() > 1,
        op[0] == '$',
        operator_strategy(k, op, arg) == s,
    ensures
        s is Some ==> plan_of(where_field(k, op, arg)).index_strategy == s->Some_0 && plan_of(
            where_field(k, op, arg),
        ).can_use_redis,
        s is None && k != "$and"@ ==> plan_of(where_field(k, op, arg)).fallback_to_mongo && !plan_of(
            where_field(k, op, arg),
        ).can_use_redis && plan_of(where_field(k, op, arg)).index_strategy is NoIndex,
{
    reveal_strlit("$");
    let q = JsonView::Object(seq![(op, arg)]);
    let inner = q->Object_0;
    let o = where_field(k, op, arg)->Object_0;
    assert(op.subrange(0, 1) == "$"@);
    assert(begins_with(op, "$"@));
    assert(!begins_with(k, "$"@)) by {
        if begins_with(k, "$"@) {
            assert(k.subrange(0, 1)[0] == '$');
        }
    }
    assert(is_operators(q));
    assert(inner.drop_first() == Seq::<(Seq<char>, JsonView)>::empty());
    assert(first_strategy(k, inner.drop_first()) is None);
    assert(first_strategy(k, inner) == s);
    assert(condition_strategy(k, q) == s);
    lemma_key_at_is(o, "_id"@, 1);
    if k != "$and"@ {
        lemma_key_at_is(o, "$and"@, 1);
    }
}

proof fn lemma_equal(k: Seq<char>, v: JsonView)
    requires
        is_name(k),
        k != "_id"@,
        !(v is Object),
    ensures
        plan_of(where_equal(k, v)).index_strategy == equality_strategy(k, v),
        plan_of(where_equal(k, v)).can_use_redis,
{
    reveal_strlit("$");
    let o = where_equal(k, v)->Object_0;
    assert(!begins_with(k, "$"@)) by {
        if begins_with(k, "$"@) {
            assert(k.subrange(0, 1)[0] == '$');
        }
    }
    lemma_key_at_is(o, "_id"@, 1);
}

proof fn lemma_range(
    filter: JsonView,
    prefix: Seq<char>,
    db: Seq<char>,
    collection: Seq<char>,
    k: Seq<char>,
    id: Seq<char>,
    doc: JsonView,
    m: int,
    min: u64,
    max: u64,
)
    requires
        is_name(k),
        is_short(m),
        has_field(doc, k, integer(m)),
        plan_of(filter).can_use_redis,
        plan_of(filter).index_strategy == (StrategyView::NumericRange { field: k, min, max }),
    ensures
        is_found(filter, (k, IndexType::Numeric), prefix, db, collection, id, doc) <==> lies_between(
            float::of_int(m),
            min,
            max,
        ),
        asks_once(filter, prefix, db, collection),
{
    let d = (k, IndexType::Numeric);
    let key = numeric_name(prefix, db, collection, k);
    let score = float::of_int(m);
    let c = additions(prefix, db, collection, seq![d], id, doc);
    lemma_one_def(prefix, db, collection, d, id, doc);
    lemma_field_is_read(doc, k, integer(m));
    assert(float_of(integer(m)) == Some(score));
    assert(c == seq![CommandView::ZAdd { key, member: id, score }]);
    assert(c[0] == CommandView::ZAdd { key, member: id, score });
    assert(scored(c, key, id, score));
    assert forall|s: u64| #[trigger] scored(c, key, id, s) implies s == score by {}
    let looks = strategy_queries(prefix, db, collection, plan_of(filter).index_strategy);
    assert(looks == seq![IndexQueryView::Range { key, min, max }]);
    assert(looks[0] == (IndexQueryView::Range { key, min, max }));
    if lies_between(score, min, max) {
        assert(scored(c, key, id, score) && lies_between(score, min, max));
        assert(scored_between(c, key, id, min, max));
    }
    if finds(looks[0], c, id) {
        let s = choose|s: u64| #[trigger] scored(c, key, id, s) && lies_between(s, min, max);
        assert(s == score);
    }
    assert(is_found(filter, d, prefix, db, collection, id, doc) == finds(looks[0], c, id));
}

/// An index on a number finds the documents whose numbers a filter asks for.  A
/// strict bound may let through the bound itself, which the filter leaves out
/// afterwards.
#[verifier::rlimit(40)]
pub proof fn lemma_numbers_are_found(
    prefix: Seq<char>,
    db: Seq<char>,
    collection: Seq<char>,
    k: Seq<char>,
    id: Seq<char>,
    doc: JsonView,
    m: int,
    n: int,
)
    requires
        is_name(k),
        k != "_id"@,
        is_short(m),
        is_short(n - 1),
        is_short(n + 1),
        has_field(doc, k, integer(m)),
    ensures
        ({
            let d = (k, IndexType::Numeric);
            let x = integer(n);
            &&& is_found(where_equal(k, x), d, prefix, db, collection, id, doc) <==> m == n
            &&& is_found(where_field(k, "$eq"@, x), d, prefix, db, collection, id, doc) <==> m == n
            &&& is_found(where_field(k, "$gte"@, x), d, prefix, db, collection, id, doc) <==> m >= n
            &&& is_found(where_field(k, "$lte"@, x), d, prefix, db, collection, id, doc) <==> m <= n
            &&& m > n ==> is_found(where_field(k, "$gt"@, x), d, prefix, db, collection, id, doc)
            &&& m < n ==> !is_found(where_field(k, "$gt"@, x), d, prefix, db, collection, id, doc)
            &&& m < n ==> is_found(where_field(k, "$lt"@, x), d, prefix, db, collection, id, doc)
            &&& m > n ==> !is_found(where_field(k, "$lt"@, x), d, prefix, db, collection, id, doc)
            &&& asks_once(where_equal(k, x), prefix, db, collection)
            &&& asks_once(where_field(k, "$eq"@, x), prefix, db, collection)
            &&& asks_once(where_field(k, "$gt"@, x), prefix, db, collection)
            &&& asks_once(where_field(k, "$gte"@, x), prefix, db, collection)
            &&& asks_once(where_field(k, "$lt"@, x), prefix, db, collection)
            &&& asks_once(where_field(k, "$lte"@, x), prefix, db, collection)
        }),
{
    let x = integer(n);
    let f = float::of_int(n);
    assert(float_of(x) == Some(f));
    float::lemma_integer_arithmetic(m, n);
    float::lemma_integer_arithmetic(n, n + 1);
    float::lemma_integer_arithmetic(n - 1, n);
    float::lemma_integers_are_exact(m);
    float::lemma_integers_are_exact(n);
    float::lemma_integers_are_exact(n - 1);
    float::lemma_integers_are_exact(n + 1);
    float::lemma_epsilon_is_small();
    let u = vstd::arithmetic::power2::pow2(1074) as int;
    assert((n + 1) * u == n * u + u && (n - 1) * u == n * u - u) by (nonlinear_arith);
    float::lemma_sum_is_near(f, float::EPSILON, f, float::of_int(n + 1));
    float::lemma_sum_is_near(f, float::NEG_EPSILON, float::of_int(n - 1), f);
    assert(m > n ==> m * u >= (n + 1) * u) by (nonlinear_arith)
        requires
            u >= 0,
    ;
    assert(m < n ==> m * u <= (n - 1) * u) by (nonlinear_arith)
        requires
            u >= 0,
    ;
    assert(float::is_finite(f) && float::is_finite(float::sum(f, float::EPSILON)) && float::is_finite(
        float::sum(f, float::NEG_EPSILON),
    ));
    reveal_strlit("$eq");
    reveal_strlit("$gt");
    reveal_strlit("$gte");
    reveal_strlit("$lt");
    reveal_strlit("$lte");
    reveal_strlit("$in");
    assert("$eq"@.len() == 3);
    assert("$gt"@.len() == 3);
    assert("$gte"@.len() == 4);
    assert("$lt"@.len() == 3);
    assert("$lte"@.len() == 4);
    assert("$in"@.len() == 3);
    assert("$eq"@[1] == 'e');
    assert("$gt"@[1] == 'g');
    assert("$gte"@[1] == 'g');
    assert("$in"@[1] == 'i');
    assert("$lt"@[1] == 'l');
    assert("$lte"@[1] == 'l');
    assert("$eq"@[0] == '$' && "$gt"@[0] == '$' && "$gte"@[0] == '$' && "$lt"@[0] == '$' && "$lte"@[0] == '$');
    lemma_equal(k, x);
    lemma_operator(k, "$eq"@, x, Some(equality_strategy(k, x)));
    lemma_operator(
        k,
        "$gt"@,
        x,
        Some(
            StrategyView::NumericRange {
                field: k,
                min: float::sum(f, float::EPSILON),
                max: float::INFINITY,
            },
        ),
    );
    lemma_operator(
        k,
        "$gte"@,
        x,
        Some(StrategyView::NumericRange { field: k, min: f, max: float::INFINITY }),
    );
    lemma_operator(
        k,
        "$lt"@,
        x,
        Some(
            StrategyView::NumericRange {
                field: k,
                min: float::NEG_INFINITY,
                max: float::sum(f, float::NEG_EPSILON),
            },
        ),
    );
    lemma_operator(
        k,
        "$lte"@,
        x,
        Some(StrategyView::NumericRange { field: k, min: float::NEG_INFINITY, max: f }),
    );
    assert(!float::is_finite(float::INFINITY) && !float::is_finite(float::NEG_INFINITY));
    let up = float::sum(f, float::EPSILON);
    let down = float::sum(f, float::NEG_EPSILON);
    lemma_range(where_equal(k, x), prefix, db, collection, k, id, doc, m, f, f);
    lemma_range(where_field(k, "$eq"@, x), prefix, db, collection, k, id, doc, m, f, f);
    lemma_range(where_field(k, "$gt"@, x), prefix, db, collection, k, id, doc, m, up, float::INFINITY);
    lemma_range(where_field(k, "$gte"@, x), prefix, db, collection, k, id, doc, m, f, float::INFINITY);
    lemma_range(where_field(k, "$lt"@, x), prefix, db, collection, k, id, doc, m, float::NEG_INFINITY, down);
    lemma_range(where_field(k, "$lte"@, x), prefix, db, collection, k, id, doc, m, float::NEG_INFINITY, f);
}

/// Whether a value is a text or a list of texts that holds a text.
pub open spec fn holds_text(v: JsonView, t: Seq<char>) -> bool {
    v == JsonView::String(t) || (v matches JsonView::Array(a) && a.contains(JsonView::String(t)))
}

/// Whether a value is a text or a list of texts.
pub open spec fn is_texts(v: JsonView) -> bool {
    v is String || (v matches JsonView::Array(a) && forall|i: int|
        0 <= i < a.len() ==> (#[trigger] a[i]) is String)
}

proof fn lemma_tags(
    prefix: Seq<char>,
    db: Seq<char>,
    collection: Seq<char>,
    k: Seq<char>,
    id: Seq<char>,
    doc: JsonView,
    v: JsonView,
    t: Seq<char>,
)
    requires
        is_name(k),
        has_field(doc, k, v),
        is_texts(v),
    ensures
        tagged(
            additions(prefix, db, collection, seq![(k, IndexType::Tag)], id, doc),
            tag_name(prefix, db, collection, k, t),
            id,
        ) <==> holds_text(v, t),
{
    let d = (k, IndexType::Tag);
    let c = additions(prefix, db, collection, seq![d], id, doc);
    let key = tag_name(prefix, db, collection, k, t);
    lemma_one_def(prefix, db, collection, d, id, doc);
    lemma_field_is_read(doc, k, v);
    let tags = tags_of(v);
    assert(c.len() == tags.len());
    assert forall|i: int| 0 <= i < c.len() implies (#[trigger] c[i]) == (CommandView::SAdd {
        key: tag_name(prefix, db, collection, k, tags[i]),
        member: id,
    }) by {}
    if tagged(c, key, id) {
        let i = choose|i: int| 0 <= i < c.len() && c[i] == (CommandView::SAdd { key, member: id });
        lemma_index_names_differ(prefix, db, collection, k, tags[i], db, collection, k, t);
        assert(tags[i] == t);
        if let JsonView::Array(a) = v {
            assert(a[i] is String);
            assert(a[i] == JsonView::String(t));
        }
    }
    if holds_text(v, t) {
        if let JsonView::Array(a) = v {
            let i = choose|i: int| 0 <= i < a.len() && a[i] == JsonView::String(t);
            assert(tags[i] == t);
            assert(c[i] == (CommandView::SAdd { key, member: id }));
        } else {
            assert(tags[0] == t);
            assert(c[0] == (CommandView::SAdd { key, member: id }));
        }
    }
}

/// An index by tags finds the documents whose field is the text that a filter
/// asks for, or a list that holds it; asked for several texts it finds those
/// that hold them all.
#[verifier::rlimit(40)]
pub proof fn lemma_texts_are_found(
    prefix: Seq<char>,
    db: Seq<char>,
    collection: Seq<char>,
    k: Seq<char>,
    id: Seq<char>,
    doc: JsonView,
    v: JsonView,
    t: Seq<char>,
    several: Seq<JsonView>,
)
    requires
        is_name(k),
        k != "_id"@,
        has_field(doc, k, v),
        is_texts(v),
        several.len() > 0,
        is_texts(JsonView::Array(several)),
    ensures
        ({
            let d = (k, IndexType::Tag);
            let x = JsonView::String(t);
            let y = JsonView::Array(several);
            &&& is_found(where_equal(k, x), d, prefix, db, collection, id, doc) <==> holds_text(v, t)
            &&& is_found(where_field(k, "$eq"@, x), d, prefix, db, collection, id, doc) <==> holds_text(
                v,
                t,
            )
            &&& is_found(where_field(k, "$in"@, y), d, prefix, db, collection, id, doc) <==> forall|
                i: int,
            |
                0 <= i < several.len() ==> holds_text(v, (#[trigger] several[i])->String_0)
            &&& asks_once(where_equal(k, x), prefix, db, collection)
            &&& asks_once(where_field(k, "$eq"@, x), prefix, db, collection)
            &&& asks_once(where_field(k, "$in"@, y), prefix, db, collection)
        }),
{
    let d = (k, IndexType::Tag);
    let x = JsonView::String(t);
    let y = JsonView::Array(several);
    let c = additions(prefix, db, collection, seq![d], id, doc);
    reveal_strlit("$eq");
    reveal_strlit("$gt");
    reveal_strlit("$gte");
    reveal_strlit("$lt");
    reveal_strlit("$lte");
    reveal_strlit("$in");
    assert("$eq"@.len() == 3);
    assert("$gt"@.len() == 3);
    assert("$gte"@.len() == 4);
    assert("$lt"@.len() == 3);
    assert("$lte"@.len() == 4);
    assert("$in"@.len() == 3);
    assert("$eq"@[1] == 'e');
    assert("$gt"@[1] == 'g');
    assert("$gte"@[1] == 'g');
    assert("$in"@[1] == 'i');
    assert("$lt"@[1] == 'l');
    assert("$lte"@[1] == 'l');
    assert("$eq"@[0] == '$' && "$in"@[0] == '$');
    lemma_equal(k, x);
    lemma_operator(k, "$eq"@, x, Some(equality_strategy(k, x)));
    lemma_operator(k, "$in"@, y, Some(StrategyView::TagsAnd { field: k, values: bare_texts(several) }));
    lemma_tags(prefix, db, collection, k, id, doc, v, t);
    let looks = strategy_queries(
        prefix,
        db,
        collection,
        plan_of(where_field(k, "$in"@, y)).index_strategy,
    );
    assert(looks.len() == 1 && looks[0] is Common);
    let keys = looks[0]->keys;
    assert(keys.len() == several.len());
    assert forall|i: int| 0 <= i < several.len() implies tagged(c, #[trigger] keys[i], id) == holds_text(
        v,
        several[i]->String_0,
    ) by {
        assert(several[i] is String);
        lemma_tags(prefix, db, collection, k, id, doc, v, several[i]->String_0);
    }
    if finds(looks[0], c, id) {
        assert forall|i: int| 0 <= i < several.len() implies holds_text(
            v,
            (#[trigger] several[i])->String_0,
        ) by {
            assert(tagged(c, keys[i], id));
        }
    }
    if forall|i: int| 0 <= i < several.len() ==> holds_text(v, (#[trigger] several[i])->String_0) {
        assert forall|i: int| 0 <= i < keys.len() implies #[trigger] tagged(c, keys[i], id) by {
            assert(holds_text(v, several[i]->String_0));
        }
    }
}

/// A field that a document lacks is in no index.
pub proof fn lemma_missing_is_not_indexed(
    prefix: Seq<char>,
    db: Seq<char>,
    collection: Seq<char>,
    def: (Seq<char>, IndexType),
    id: Seq<char>,
    doc: JsonView,
)
    requires
        !def.0.contains('.'),
        lacks_field(doc, def.0),
    ensures
        additions(prefix, db, collection, seq![def], id, doc).len() == 0,
{
    lemma_one_def(prefix, db, collection, def, id, doc);
    lemma_missing_field(doc, def.0);
}

/// A document is indexed and kept by its id, and not at all without one.
pub proof fn lemma_documents_go_by_id(doc: JsonView, id: Seq<char>)
    ensures
        has_field(doc, "_id"@, JsonView::String(id)) ==> doc_id_of(doc) == Some(id),
        lacks_field(doc, "_id"@) ==> doc_id_of(doc) is None,
{
    if has_field(doc, "_id"@, JsonView::String(id)) {
        lemma_field_is_read(doc, "_id"@, JsonView::String(id));
    }
    if lacks_field(doc, "_id"@) {
        lemma_missing_field(doc, "_id"@);
    }
}

/// A filter that asks for an id, whatever else it asks for, is answered by that
/// id, without a look into an index.
pub proof fn lemma_id_is_looked_up(
    filter: JsonView,
    id: Seq<char>,
    prefix: Seq<char>,
    db: Seq<char>,
    collection: Seq<char>,
    replies: Seq<Seq<Seq<char>>>,
)
    requires
        has_field(filter, "_id"@, JsonView::String(id)),
    ensures
        plan_of(filter).can_use_redis,
        found_ids(plan_of(filter).index_strategy, replies) == seq![id],
        strategy_queries(prefix, db, collection, plan_of(filter).index_strategy).len() == 0,
{
    lemma_field_is_read(filter, "_id"@, JsonView::String(id));
}

/// A filter that asks for several fields, none of them the id, is answered
/// without an index, and so is one that asks for nothing.
pub proof fn lemma_several_fields_are_not_looked_up(o: Seq<(Seq<char>, JsonView)>)
    requires
        o.len() != 1,
        forall|i: int| 0 <= i < o.len() ==> is_name((#[trigger] o[i]).0) && o[i].0 != "_id"@,
    ensures
        plan_of(JsonView::Object(o)).fallback_to_mongo,
        !plan_of(JsonView::Object(o)).can_use_redis,
        plan_of(JsonView::Object(o)).index_strategy is NoIndex,
{
    reveal_strlit("$and");
    assert("$and"@[0] == '$');
    lemma_key_at_is(o, "_id"@, o.len() as int);
    lemma_key_at_is(o, "$and"@, o.len() as int);
}

/// The filters that ask for fields by texts.
pub open spec fn by_texts(a: Seq<(Seq<char>, Seq<char>)>) -> Seq<JsonView> {
    a.map_values(|e: (Seq<char>, Seq<char>)| where_equal(e.0, JsonView::String(e.1)))
}

proof fn lemma_list_by_texts(a: Seq<(Seq<char>, Seq<char>)>)
    requires
        forall|i: int| 0 <= i < a.len() ==> is_name((#[trigger] a[i]).0) && a[i].0 != "_id"@,
    ensures
        list_strategies(by_texts(a)) == a.map_values(
            |e: (Seq<char>, Seq<char>)| StrategyView::TagExact { field: e.0, value: e.1 },
        ),
    decreases a.len(),
{
    if a.len() > 0 {
        let d = a.drop_last();
        assert forall|i: int| 0 <= i < d.len() implies is_name((#[trigger] d[i]).0) && d[i].0 != "_id"@ by {
            assert(d[i] == a[i]);
        }
        lemma_list_by_texts(d);
        assert(by_texts(a).drop_last() == by_texts(d));
        let e = a.last();
        assert(a[a.len() - 1] == e);
        let o = seq![(e.0, JsonView::String(e.1))];
        assert(by_texts(a).last() == JsonView::Object(o));
        reveal_strlit("$");
        assert(!begins_with(e.0, "$"@)) by {
            if begins_with(e.0, "$"@) {
                assert(e.0.subrange(0, 1)[0] == '$');
            }
        }
        assert(o.drop_last() == Seq::<(Seq<char>, JsonView)>::empty());
        assert(entry_strategies(o.drop_last()) == Seq::<StrategyView>::empty());
        let s = StrategyView::TagExact { field: e.0, value: e.1 };
        assert(entry_strategies(o) == Seq::<StrategyView>::empty().push(s));
    } else {
        assert(by_texts(a).len() == 0);
    }
}

/// A conjunction is answered by a look for each of its fields, in their order,
/// and finds what all of the looks find that find anything, in the order of the
/// first of these.
pub proof fn lemma_conjunctions_are_found(
    a: Seq<(Seq<char>, Seq<char>)>,
    prefix: Seq<char>,
    db: Seq<char>,
    collection: Seq<char>,
    replies: Seq<Seq<Seq<char>>>,
)
    requires
        a.len() > 0,
        forall|i: int| 0 <= i < a.len() ==> is_name((#[trigger] a[i]).0) && a[i].0 != "_id"@,
        replies.len() > 0,
        forall|i: int| 0 <= i < replies.len() ==> (#[trigger] replies[i]).len() > 0,
    ensures
        ({
            let s = plan_of(
                JsonView::Object(seq![("$and"@, JsonView::Array(by_texts(a)))]),
            ).index_strategy;
            &&& strategy_queries(prefix, db, collection, s) == a.map_values(
                |e: (Seq<char>, Seq<char>)|
                    IndexQueryView::Members { key: tag_name(prefix, db, collection, e.0, e.1) },
            )
            &&& found_ids(s, replies) == replies[0].filter(
                |x: Seq<char>|
                    forall|j: int| 0 <= j < replies.len() ==> (#[trigger] replies[j]).contains(x),
            )
        }),
{
    reveal_strlit("$");
    reveal_strlit("$and");
    reveal_strlit("_id");
    assert("$and"@.len() == 4);
    assert("_id"@.len() == 3);
    let o = seq![("$and"@, JsonView::Array(by_texts(a)))];
    let filter = JsonView::Object(o);
    assert("$and"@.subrange(0, 1) == "$"@) by {
        assert("$and"@[0] == '$');
    }
    assert(condition_strategy(o[0].0, o[0].1) is None);
    lemma_key_at_is(o, "_id"@, 1);
    lemma_key_at_is(o, "$and"@, 0);
    lemma_list_by_texts(a);
    let parts = a.map_values(
        |e: (Seq<char>, Seq<char>)| StrategyView::TagExact { field: e.0, value: e.1 },
    );
    assert(and_strategies(filter) == parts);
    assert(plan_of(filter).index_strategy == StrategyView::Composite(parts));
    lemma_part_looks(prefix, db, collection, a);
    lemma_all_hold_something(replies);
    lemma_common_is_filter(replies);
}

proof fn lemma_part_looks(
    prefix: Seq<char>,
    db: Seq<char>,
    collection: Seq<char>,
    a: Seq<(Seq<char>, Seq<char>)>,
)
    ensures
        crate::select::part_queries(
            prefix,
            db,
            collection,
            a.map_values(
                |e: (Seq<char>, Seq<char>)| StrategyView::TagExact { field: e.0, value: e.1 },
            ),
        ) == a.map_values(
            |e: (Seq<char>, Seq<char>)|
                IndexQueryView::Members { key: tag_name(prefix, db, collection, e.0, e.1) },
        ),
    decreases a.len(),
{
    let parts = a.map_values(
        |e: (Seq<char>, Seq<char>)| StrategyView::TagExact { field: e.0, value: e.1 },
    );
    if a.len() > 0 {
        let d = a.drop_last();
        lemma_part_looks(prefix, db, collection, d);
        assert(parts.drop_last() == d.map_values(
            |e: (Seq<char>, Seq<char>)| StrategyView::TagExact { field: e.0, value: e.1 },
        ));
        assert(parts.last() == (StrategyView::TagExact { field: a.last().0, value: a.last().1 }));
    }
}

proof fn lemma_all_hold_something(lists: Seq<Seq<Seq<char>>>)
    requires
        forall|i: int| 0 <= i < lists.len() ==> (#[trigger] lists[i]).len() > 0,
    ensures
        nonempty_lists(lists) == lists,
    decreases lists.len(),
{
    if lists.len() > 0 {
        let d = lists.drop_last();
        assert forall|i: int| 0 <= i < d.len() implies (#[trigger] d[i]).len() > 0 by {
            assert(d[i] == lists[i]);
        }
        assert(lists[lists.len() - 1].len() > 0);
        lemma_all_hold_something(d);
        assert(d.push(lists.last()) == lists);
    }
}

proof fn lemma_kept_is_filter(a: Seq<Seq<char>>, p: spec_fn(Seq<char>) -> bool, b: Seq<Seq<char>>)
    ensures
        kept_in(a.filter(p), b) == a.filter(|x: Seq<char>| p(x) && b.contains(x)),
    decreases a.len(),
{
    reveal(Seq::filter);
    let q = |x: Seq<char>| p(x) && b.contains(x);
    if a.len() > 0 {
        let d = a.drop_last();
        lemma_kept_is_filter(d, p, b);
        if p(a.last()) {
            let f = d.filter(p).push(a.last());
            assert(a.filter(p) == f);
            assert(f.drop_last() == d.filter(p));
        }
    } else {
        assert(a.filter(p).len() == 0);
    }
}

proof fn lemma_filter_same(
    a: Seq<Seq<char>>,
    p: spec_fn(Seq<char>) -> bool,
    q: spec_fn(Seq<char>) -> bool,
)
    requires
        forall|i: int| 0 <= i < a.len() ==> p(#[trigger] a[i]) == q(a[i]),
    ensures
        a.filter(p) == a.filter(q),
    decreases a.len(),
{
    reveal(Seq::filter);
    if a.len() > 0 {
        let d = a.drop_last();
        assert forall|i: int| 0 <= i < d.len() implies p(#[trigger] d[i]) == q(d[i]) by {
            assert(d[i] == a[i]);
        }
        assert(p(a[a.len() - 1]) == q(a[a.len() - 1]));
        lemma_filter_same(d, p, q);
    }
}

proof fn lemma_filter_all(a: Seq<Seq<char>>, p: spec_fn(Seq<char>) -> bool)
    requires
        forall|i: int| 0 <= i < a.len() ==> p(#[trigger] a[i]),
    ensures
        a.filter(p) == a,
    decreases a.len(),
{
    reveal(Seq::filter);
    if a.len() > 0 {
        let d = a.drop_last();
        assert forall|i: int| 0 <= i < d.len() implies p(#[trigger] d[i]) by {
            assert(d[i] == a[i]);
        }
        assert(p(a[a.len() - 1]));
        lemma_filter_all(d, p);
        assert(d.push(a.last()) == a);
    }
}

proof fn lemma_common_is_filter(lists: Seq<Seq<Seq<char>>>)
    requires
        lists.len() > 0,
    ensures
        common(lists) == lists[0].filter(
            |x: Seq<char>| forall|j: int| 0 <= j < lists.len() ==> (#[trigger] lists[j]).contains(x),
        ),
    decreases lists.len(),
{
    let p = |x: Seq<char>| forall|j: int| 0 <= j < lists.len() ==> (#[trigger] lists[j]).contains(x);
    let a = lists[0];
    if lists.len() == 1 {
        assert forall|i: int| 0 <= i < a.len() implies p(#[trigger] a[i]) by {
            assert forall|j: int| 0 <= j < lists.len() implies (#[trigger] lists[j]).contains(a[i]) by {
                assert(lists[0][i] == a[i]);
            }
        }
        lemma_filter_all(a, p);
    } else {
        let d = lists.drop_last();
        lemma_common_is_filter(d);
        let q = |x: Seq<char>| forall|j: int| 0 <= j < d.len() ==> (#[trigger] d[j]).contains(x);
        assert(d[0] == a);
        lemma_kept_is_filter(a, q, lists.last());
        let r = |x: Seq<char>| q(x) && lists.last().contains(x);
        assert forall|i: int| 0 <= i < a.len() implies r(#[trigger] a[i]) == p(a[i]) by {
            let x = a[i];
            if r(x) {
                assert forall|j: int| 0 <= j < lists.len() implies (#[trigger] lists[j]).contains(x) by {
                    if j < d.len() {
                        assert(d[j].contains(x));
                    }
                }
            }
            if p(x) {
                assert forall|j: int| 0 <= j < d.len() implies (#[trigger] d[j]).contains(x) by {
                    assert(lists[j].contains(x));
                }
                assert(lists[lists.len() - 1].contains(x));
            }
        }
        lemma_filter_same(a, r, p);
    }
}

/// Every field that a filter names is one that it asks about, and so are those
/// of the filters that it combines; an operator never is.
pub proof fn lemma_asked_fields_are_known(
    o: Seq<(Seq<char>, JsonView)>,
    i: int,
    a: Seq<JsonView>,
    j: int,
    x: Seq<char>,
)
    requires
        0 <= i < o.len(),
        0 <= j < a.len(),
    ensures
        is_name(o[i].0) ==> fields_of(JsonView::Object(o)).contains(o[i].0),
        (o[i].0 == "$and"@ || o[i].0 == "$or"@ || o[i].0 == "$nor"@) && o[i].1 == JsonView::Array(a)
            && fields_of(a[j]).contains(x) ==> fields_of(JsonView::Object(o)).contains(x),
        o[i].0 == "$not"@ && fields_of(o[i].1).contains(x) ==> fields_of(JsonView::Object(o)).contains(x),
        fields_of(JsonView::Object(o)).contains(x) ==> !begins_with(x, "$"@),
{
    lemma_entry_known(o, i, x);
    lemma_entry_known(o, i, o[i].0);
    lemma_listed_known(a, j, x);
    reveal_strlit("$");
    reveal_strlit("$not");
    reveal_strlit("$and");
    reveal_strlit("$nor");
    reveal_strlit("$or");
    assert("$not"@.len() == 4 && "$and"@.len() == 4 && "$nor"@.len() == 4 && "$or"@.len() == 3);
    assert("$not"@[0] == '$' && "$and"@[0] == '$' && "$nor"@[0] == '$' && "$or"@[0] == '$');
    assert("$not"@[2] == 'o' && "$and"@[2] == 'n' && "$nor"@[2] == 'o');
    assert("$not"@[3] == 't' && "$nor"@[3] == 'r');
    if is_name(o[i].0) {
        let k = o[i].0;
        assert(!begins_with(k, "$"@)) by {
            if begins_with(k, "$"@) {
                assert(k.subrange(0, 1)[0] == '$');
            }
        }
        assert(entry_fields(k, o[i].1) == seq![k]);
        assert(seq![k][0] == k);
    }
    lemma_no_operator(JsonView::Object(o), x);
}

proof fn lemma_entry_known(o: Seq<(Seq<char>, JsonView)>, i: int, x: Seq<char>)
    requires
        0 <= i < o.len(),
    ensures
        entry_fields(o[i].0, o[i].1).contains(x) ==> fields_of(JsonView::Object(o)).contains(x),
    decreases o.len(),
{
    let d = o.drop_last();
    let head = entries_fields(d);
    let tail = entry_fields(o.last().0, o.last().1);
    let all = entries_fields(o);
    assert(all == head + tail);
    if entry_fields(o[i].0, o[i].1).contains(x) {
        if i < d.len() {
            lemma_entry_known(d, i, x);
            assert(d[i] == o[i]);
            assert(fields_of(JsonView::Object(d)) == head);
            let n = choose|n: int| 0 <= n < head.len() && head[n] == x;
            assert(all[n] == x);
        } else {
            let n = choose|n: int| 0 <= n < tail.len() && tail[n] == x;
            assert(all[head.len() + n] == x);
        }
    }
}

proof fn lemma_listed_known(a: Seq<JsonView>, j: int, x: Seq<char>)
    requires
        0 <= j < a.len(),
    ensures
        fields_of(a[j]).contains(x) ==> list_fields(a).contains(x),
    decreases a.len(),
{
    let d = a.drop_last();
    let head = list_fields(d);
    let tail = fields_of(a.last());
    let all = list_fields(a);
    assert(all == head + tail);
    if fields_of(a[j]).contains(x) {
        if j < d.len() {
            lemma_listed_known(d, j, x);
            let n = choose|n: int| 0 <= n < head.len() && head[n] == x;
            assert(all[n] == x);
        } else {
            let n = choose|n: int| 0 <= n < tail.len() && tail[n] == x;
            assert(all[head.len() + n] == x);
        }
    }
}

proof fn lemma_no_operator(f: JsonView, x: Seq<char>)
    ensures
        fields_of(f).contains(x) ==> !begins_with(x, "$"@),
    decreases f, 3int, 0int,
{
    if let JsonView::Object(o) = f {
        lemma_no_operator_in(o, x);
    }
}

proof fn lemma_no_operator_in(o: Seq<(Seq<char>, JsonView)>, x: Seq<char>)
    ensures
        entries_fields(o).contains(x) ==> !begins_with(x, "$"@),
    decreases o, 2int, o.len(),
{
    if o.len() > 0 {
        let e = o.last();
        lemma_no_operator_in(o.drop_last(), x);
        let tail = entry_fields(e.0, e.1);
        if entries_fields(o).contains(x) && !entries_fields(o.drop_last()).contains(x) {
            assert(tail.contains(x)) by {
                let all = entries_fields(o);
                let head = entries_fields(o.drop_last());
                let n = choose|n: int| 0 <= n < all.len() && all[n] == x;
                if n < head.len() {
                    assert(head[n] == x);
                } else {
                    assert(tail[n - head.len()] == x);
                }
            }
            if let JsonView::Array(a) = e.1 {
                assert(decreases_to!(o => e));
                assert(decreases_to!(e => e.1));
                lemma_no_operator_among(a, x);
            }
            assert(decreases_to!(o => e));
            assert(decreases_to!(e => e.1));
            lemma_no_operator(e.1, x);
        }
    }
}

proof fn lemma_no_operator_among(a: Seq<JsonView>, x: Seq<char>)
    ensures
        list_fields(a).contains(x) ==> !begins_with(x, "$"@),
    decreases a, 2int, a.len(),
{
    if a.len() > 0 {
        lemma_no_operator_among(a.drop_last(), x);
        lemma_no_operator(a.last(), x);
        if list_fields(a).contains(x) && !list_fields(a.drop_last()).contains(x) {
            let all = list_fields(a);
            let head = list_fields(a.drop_last());
            let tail = fields_of(a.last());
            let n = choose|n: int| 0 <= n < all.len() && all[n] == x;
            if n < head.len() {
                assert(head[n] == x);
            } else {
                assert(tail[n - head.len()] == x);
            }
        }
    }
}

/// The name that a change to the statistics is about.
pub open spec fn stats_key(c: StatsView) -> Seq<char> {
    match c {
        StatsView::Incr { key } => key,
        StatsView::Expire { key, .. } => key,
        StatsView::Put { key, .. } => key,
        StatsView::Del { key } => key,
    }
}

/// Forgetting a field takes away everything that was noted of it, and nothing
/// else.
pub proof fn lemma_fields_are_forgotten(
    prefix: Seq<char>,
    db: Seq<char>,
    collection: Seq<char>,
    f: Seq<char>,
    now_ms: u64,
    window_secs: u64,
    drop_idle_secs: u64,
    i: int,
)
    ensures
        ({
            let record = query_record(prefix, db, collection, f, now_ms, window_secs, drop_idle_secs);
            let gone = field_forgotten(prefix, db, collection, f);
            &&& 0 <= i < record.len() ==> gone.contains(StatsView::Del { key: stats_key(record[i]) })
            &&& gone.contains(
                StatsView::Del { key: stats_key(index_note(prefix, db, collection, f)) },
            )
            &&& 0 <= i < gone.len() ==> gone[i] is Del && named_field(stats_key(gone[i])) == Some(f)
        }),
{
    let record = query_record(prefix, db, collection, f, now_ms, window_secs, drop_idle_secs);
    let gone = field_forgotten(prefix, db, collection, f);
    assert(gone[0] == StatsView::Del { key: stats_key(index_note(prefix, db, collection, f)) });
    assert(gone[1] == StatsView::Del { key: stats_key(record[0]) });
    assert(gone[2] == StatsView::Del { key: stats_key(record[2]) });
    assert(stats_key(record[1]) == stats_key(record[0]) && stats_key(record[3]) == stats_key(record[2]));
    lemma_stats_words();
    lemma_field_from_stats_name(prefix, db, collection, f, "exists"@);
    lemma_field_from_stats_name(prefix, db, collection, f, "queries"@);
    lemma_field_from_stats_name(prefix, db, collection, f, "last_used"@);
}

proof fn lemma_stats_words()
    ensures
        !"exists"@.contains(':') && !"queries"@.contains(':') && !"last_used"@.contains(':'),
        "exists"@ != "queries"@ && "queries"@ != "last_used"@ && "exists"@ != "last_used"@,
{
    reveal_strlit("exists");
    reveal_strlit("queries");
    reveal_strlit("last_used");
    assert("exists"@.len() == 6);
    assert("queries"@.len() == 7);
    assert("last_used"@.len() == 9);
}

/// A query counts for its field: one more query, kept for the window, and its
/// date in seconds, kept for as long as a field may be idle.
pub proof fn lemma_queries_are_counted(
    prefix: Seq<char>,
    db: Seq<char>,
    collection: Seq<char>,
    f: Seq<char>,
    secs: u64,
    rest: u64,
    window_secs: u64,
    drop_idle_secs: u64,
)
    requires
        rest < 1000,
        secs * 1000 + rest <= u64::MAX,
        window_secs <= i64::MAX,
        drop_idle_secs <= i64::MAX,
    ensures
        ({
            let record = query_record(
                prefix,
                db,
                collection,
                f,
                (secs * 1000 + rest) as u64,
                window_secs,
                drop_idle_secs,
            );
            let count = stats_key(record[0]);
            let date = stats_key(record[2]);
            &&& record.len() == 4 && record[0] is Incr && count != date
            &&& named_field(count) == Some(f) && named_field(date) == Some(f)
            &&& record[1] == (StatsView::Expire { key: count, secs: window_secs as int })
            &&& record[2] == (StatsView::Put { key: date, value: decimal_text(secs as nat) })
            &&& record[3] == (StatsView::Expire { key: date, secs: drop_idle_secs as int })
        }),
{
    assert((secs * 1000 + rest) / 1000 == secs);
    lemma_stats_words();
    lemma_field_from_stats_name(prefix, db, collection, f, "queries"@);
    lemma_field_from_stats_name(prefix, db, collection, f, "last_used"@);
    let base = field_base(prefix, db, collection, f);
    if link(base, "queries"@) == link(base, "last_used"@) {
        lemma_last_part(base, "queries"@, base, "last_used"@);
    }
}

/// A field gets an index exactly when it has had as many queries as it takes.
pub proof fn lemma_popular_field(
    prefix: Seq<char>,
    db: Seq<char>,
    collection: Seq<char>,
    f: Seq<char>,
    count: u64,
    threshold: u64,
)
    ensures
        popular_field(stats_name(prefix, db, collection, f, "queries"@), count, threshold) == Some(f)
            <==> count >= threshold,
        popular_field(stats_name(prefix, db, collection, f, "queries"@), count, threshold) is None <==> count
            < threshold,
{
    lemma_stats_words();
    lemma_field_from_stats_name(prefix, db, collection, f, "queries"@);
}

/// The fields that are counted as asked for are those of the filter of a find, an
/// update or a deletion; other operations count none.
pub proof fn lemma_asked_fields_are_counted(payload: JsonView, f: JsonView)
    ensures
        has_field(payload, "filter"@, f) ==> observed("find"@, payload) == fields_of(f) && observed(
            "findOne"@,
            payload,
        ) == fields_of(f) && observed("updateOne"@, payload) == fields_of(f) && observed(
            "deleteOne"@,
            payload,
        ) == fields_of(f),
        lacks_field(payload, "filter"@) && has_field(payload, "query"@, f) ==> observed("findOne"@, payload)
            == fields_of(f),
        observed("insertOne"@, payload).len() == 0,
        observed("replaceOne"@, payload).len() == 0,
        observed("updateCollection"@, payload).len() == 0,
{
    reveal_strlit("find");
    reveal_strlit("findOne");
    reveal_strlit("updateOne");
    reveal_strlit("deleteOne");
    reveal_strlit("insertOne");
    reveal_strlit("replaceOne");
    reveal_strlit("updateCollection");
    assert("find"@.len() == 4);
    assert("findOne"@.len() == 7);
    assert("updateOne"@.len() == 9);
    assert("deleteOne"@.len() == 9);
    assert("insertOne"@.len() == 9);
    assert("replaceOne"@.len() == 10);
    assert("updateCollection"@.len() == 16);
    assert("deleteOne"@[0] == 'd');
    assert("insertOne"@[0] == 'i');
    assert("updateOne"@[0] == 'u');
    if has_field(payload, "filter"@, f) {
        lemma_field_is_read(payload, "filter"@, f);
    }
    if lacks_field(payload, "filter"@) {
        lemma_missing_field(payload, "filter"@);
    }
    if has_field(payload, "query"@, f) {
        lemma_field_is_read(payload, "query"@, f);
    }
}

} // verus!
