//! Which fields get an index, and which lose it.

use crate::keys::{collection_base, field_base, link, linked, name_starts};
use crate::object::string_view;
use crate::text::{
    cache_key_segment, chars_of, decimal, decimal_text, hex_text, owned, parse_decimal, pieces, segment,
    split, write_decimal,
};
use crate::value::is_hex_digit;
use vstd::prelude::*;
use vstd::utf8::{decode_utf8, encode_utf8, encode_utf8_decode_utf8, encode_utf8_valid_utf8, valid_utf8};

verus! {

/// When fields get an index: after `threshold` queries within `window_secs`;
/// and when they lose it: after `drop_idle_secs` without one.
pub struct AutoIndexManager {
    pub threshold: u64,
    pub window_secs: u64,
    pub drop_idle_secs: u64,
    pub prefix: String,
}

/// The value of a hexadecimal digit.
pub open spec fn hex_value(c: char) -> nat {
    if '0' <= c && c <= '9' {
        (c as nat - '0' as nat) as nat
    } else if 'a' <= c && c <= 'f' {
        (c as nat - 'a' as nat + 10) as nat
    } else {
        (c as nat - 'A' as nat + 10) as nat
    }
}

/// The byte that two characters stand for in hexadecimal; a plus sign may stand
/// for the first digit.
pub open spec fn pair_value(a: char, b: char) -> Option<u8> {
    if is_hex_digit(a) && is_hex_digit(b) {
        Some((16 * hex_value(a) + hex_value(b)) as u8)
    } else if a == '+' && is_hex_digit(b) {
        Some(hex_value(b) as u8)
    } else {
        None
    }
}

pub open spec fn is_ascii_char(c: char) -> bool {
    (c as u32) < 0x80
}

/// Whether reading a text two bytes at a time, as far as the pairs are bytes in
/// hexadecimal, cuts a character in two or runs past the end.
pub open spec fn is_torn(s: Seq<char>) -> bool
    decreases s.len(),
{
    if s.len() == 0 {
        false
    } else if is_ascii_char(s[0]) {
        if s.len() < 2 || !is_ascii_char(s[1]) {
            true
        } else {
            pair_value(s[0], s[1]) is Some && is_torn(s.skip(2))
        }
    } else {
        s[0] as u32 >= 0x800
    }
}

/// The bytes that pairs of characters stand for.
pub open spec fn hex_bytes(s: Seq<char>) -> Option<Seq<u8>>
    decreases s.len(),
{
    if s.len() == 0 {
        Some(Seq::empty())
    } else if s.len() < 2 {
        None
    } else {
        match (pair_value(s[0], s[1]), hex_bytes(s.skip(2))) {
            (Some(b), Some(rest)) => Some(seq![b] + rest),
            _ => None,
        }
    }
}

/// The text that the last but one piece of a name stands for, if the name has
/// at least five.
pub open spec fn field_piece(key: Seq<char>) -> Option<Seq<char>> {
    let p = pieces(key, ':');
    if p.len() >= 5 {
        Some(p[p.len() - 2])
    } else {
        None
    }
}

/// The field whose statistics have a name.
pub open spec fn named_field(key: Seq<char>) -> Option<Seq<char>> {
    match field_piece(key) {
        Some(hex) => match hex_bytes(hex) {
            Some(bytes) => if valid_utf8(bytes) {
                Some(decode_utf8(bytes))
            } else {
                None
            },
            None => None,
        },
        None => None,
    }
}

/// Whether a name cannot be read because its field is torn.
pub open spec fn is_torn_key(key: Seq<char>) -> bool {
    field_piece(key) matches Some(hex) && is_torn(hex)
}

/// Whether more time than a field may be idle has gone by since a date in
/// seconds; what is no date tells of no time.
pub open spec fn is_idle(last_used: Seq<char>, now_secs: u64, drop_idle_secs: u64) -> bool {
    match decimal(last_used, u64::MAX as nat) {
        Some(t) => now_secs - t > drop_idle_secs,
        None => false,
    }
}

/// The field whose last query has a date, if it has been idle for longer than it
/// may.
pub open spec fn idle_field(
    key: Seq<char>,
    last_used: Seq<char>,
    now_secs: u64,
    drop_idle_secs: u64,
) -> Option<Seq<char>> {
    if is_idle(last_used, now_secs, drop_idle_secs) {
        named_field(key)
    } else {
        None
    }
}

/// The field whose queries have a number, if they are enough for an index.
pub open spec fn popular_field(key: Seq<char>, count: u64, threshold: u64) -> Option<Seq<char>> {
    if count >= threshold {
        named_field(key)
    } else {
        None
    }
}

/// The name under which statistics of a field are kept.
pub open spec fn stats_name(
    prefix: Seq<char>,
    db: Seq<char>,
    collection: Seq<char>,
    field: Seq<char>,
    what: Seq<char>,
) -> Seq<char> {
    link(field_base(prefix, db, collection, field), what)
}

/// `String::from_utf8`: bytes that are UTF-8 are taken as the text that they
/// encode, others are refused.
#[verifier::external_body]
fn utf8_text(bytes: Vec<u8>) -> (r: Option<String>)
    ensures
        match r {
            Some(s) => valid_utf8(bytes@) && s@ == decode_utf8(bytes@),
            None => !valid_utf8(bytes@),
        },
{
    String::from_utf8(bytes).ok()
}

fn digit(c: char) -> (r: Option<u8>)
    ensures
        match r {
            Some(d) => is_hex_digit(c) && d == hex_value(c) && d < 16,
            None => !is_hex_digit(c),
        },
{
    if '0' <= c && c <= '9' {
        Some(c as u8 - '0' as u8)
    } else if 'a' <= c && c <= 'f' {
        Some(c as u8 - 'a' as u8 + 10)
    } else if 'A' <= c && c <= 'F' {
        Some(c as u8 - 'A' as u8 + 10)
    } else {
        None
    }
}

fn pair(a: char, b: char) -> (r: Option<u8>)
    ensures
        r == pair_value(a, b),
{
    match (digit(a), digit(b)) {
        (Some(x), Some(y)) => Some(16 * x + y),
        (None, Some(y)) => if a == '+' {
            Some(y)
        } else {
            None
        },
        _ => None,
    }
}

/// Whether a name cannot be read because its field is torn.
pub fn torn_key(key: &str) -> (r: bool)
    ensures
        r == is_torn_key(key@),
{
    let parts = split(key, ':');
    if parts.len() < 5 {
        return false;
    }
    let s = chars_of(parts[parts.len() - 2].as_str());
    let ghost whole = s@;
    assert(field_piece(key@) == Some(whole));
    let mut i: usize = 0;
    assert(whole.skip(0) == whole);
    while i < s.len()
        invariant
            i <= s@.len(),
            s@ == whole,
            field_piece(key@) == Some(whole),
            is_torn(whole.skip(i as int)) == is_torn(whole),
        decreases s@.len() - i,
    {
        let ghost rest = whole.skip(i as int);
        assert(rest[0] == s@[i as int]);
        if (s[i] as u32) >= 0x80 {
            return (s[i] as u32) >= 0x800;
        }
        if s.len() - i < 2 {
            return true;
        }
        assert(rest[1] == s@[i + 1]);
        if (s[i + 1] as u32) >= 0x80 {
            return true;
        }
        match pair(s[i], s[i + 1]) {
            Some(_) => {},
            None => {
                return false;
            },
        }
        assert(rest.skip(2) == whole.skip(i + 2));
        i = i + 2;
    }
    assert(whole.skip(i as int).len() == 0);
    false
}

/// The bytes that pairs of characters stand for.
fn bytes_of(s: &Vec<char>) -> (r: Option<Vec<u8>>)
    ensures
        match r {
            Some(b) => hex_bytes(s@) == Some(b@),
            None => hex_bytes(s@) is None,
        },
{
    let ghost whole = s@;
    let mut out: Vec<u8> = Vec::new();
    let mut i: usize = 0;
    proof {
        assert(whole.skip(0) == whole);
        if let Some(b) = hex_bytes(whole) {
            assert(Seq::<u8>::empty() + b == b);
        }
    }
    while i < s.len()
        invariant
            i <= s@.len(),
            s@ == whole,
            match hex_bytes(whole.skip(i as int)) {
                Some(b) => hex_bytes(whole) == Some(out@ + b),
                None => hex_bytes(whole) is None,
            },
        decreases s@.len() - i,
    {
        let ghost rest = whole.skip(i as int);
        assert(rest[0] == s@[i as int]);
        if s.len() - i < 2 {
            return None;
        }
        assert(rest[1] == s@[i + 1]);
        assert(rest.skip(2) == whole.skip(i + 2));
        match pair(s[i], s[i + 1]) {
            Some(b) => {
                let ghost before = out@;
                out.push(b);
                proof {
                    if let Some(more) = hex_bytes(rest.skip(2)) {
                        assert(before + (seq![b] + more) == out@ + more);
                    }
                }
            },
            None => {
                return None;
            },
        }
        i = i + 2;
    }
    assert(whole.skip(i as int).len() == 0);
    assert(out@ + Seq::<u8>::empty() == out@);
    Some(out)
}

/// The field whose statistics have a name.
pub fn field_of_key(key: &str) -> (r: Option<String>)
    requires
        !is_torn_key(key@),
    ensures
        string_view(r) == named_field(key@),
{
    let parts = split(key, ':');
    if parts.len() < 5 {
        return None;
    }
    let hex = chars_of(parts[parts.len() - 2].as_str());
    assert(field_piece(key@) == Some(hex@));
    match bytes_of(&hex) {
        Some(bytes) => utf8_text(bytes),
        None => None,
    }
}

impl AutoIndexManager {
    /// The statistics by which fields get and lose an index.
    pub fn new(threshold: u64, window_secs: u64, drop_idle_secs: u64) -> (r: AutoIndexManager)
        ensures
            r.threshold == threshold,
            r.window_secs == window_secs,
            r.drop_idle_secs == drop_idle_secs,
            r.prefix@ == name_starts()[3],
    {
        AutoIndexManager {
            threshold,
            window_secs,
            drop_idle_secs,
            prefix: owned("microservicedb:idx_stats"),
        }
    }

    fn name(&self, db: &str, collection: &str, field: &str, what: &str) -> (r: String)
        ensures
            r@ == stats_name(self.prefix@, db@, collection@, field@, what@),
    {
        let a = linked(self.prefix.as_str(), cache_key_segment(db).as_str());
        let b = linked(a.as_str(), cache_key_segment(collection).as_str());
        let c = linked(b.as_str(), cache_key_segment(field).as_str());
        linked(c.as_str(), what)
    }

    /// The name under which the queries on a field are counted.
    pub fn stats_key(&self, db: &str, collection: &str, field: &str) -> (r: String)
        ensures
            r@ == stats_name(self.prefix@, db@, collection@, field@, "queries"@),
    {
        self.name(db, collection, field, "queries")
    }

    /// The name under which the last query on a field is dated.
    pub fn last_used_key(&self, db: &str, collection: &str, field: &str) -> (r: String)
        ensures
            r@ == stats_name(self.prefix@, db@, collection@, field@, "last_used"@),
    {
        self.name(db, collection, field, "last_used")
    }

    /// The name under which it is noted that a field has an index.
    pub fn index_exists_key(&self, db: &str, collection: &str, field: &str) -> (r: String)
        ensures
            r@ == stats_name(self.prefix@, db@, collection@, field@, "exists"@),
    {
        self.name(db, collection, field, "exists")
    }

    /// The pattern of the names under which one kind of statistics is kept of
    /// the fields of a collection.
    pub fn stats_pattern(&self, db: &str, collection: &str, what: &str) -> (r: String)
        ensures
            r@ == link(
                link(collection_base(self.prefix@, db@, collection@), "*"@),
                what@,
            ),
    {
        let a = linked(self.prefix.as_str(), cache_key_segment(db).as_str());
        let b = linked(a.as_str(), cache_key_segment(collection).as_str());
        linked(linked(b.as_str(), "*").as_str(), what)
    }

    /// Whether a field has had enough queries to get an index.
    pub fn is_popular(&self, count: u64) -> (r: bool)
        ensures
            r == (count >= self.threshold),
    {
        count >= self.threshold
    }

    /// The field that has had enough queries to get an index.
    pub fn field_to_index(&self, key: &str, count: u64) -> (r: Option<String>)
        requires
            count >= self.threshold ==> !is_torn_key(key@),
        ensures
            string_view(r) == popular_field(key@, count, self.threshold),
    {
        if self.is_popular(count) {
            field_of_key(key)
        } else {
            None
        }
    }

    /// Whether a field has been without queries for so long that it loses its
    /// index.  The date of the last query is a text of seconds.
    pub fn is_forgotten(&self, last_used: &str, now_secs: u64) -> (r: bool)
        ensures
            r == is_idle(last_used@, now_secs, self.drop_idle_secs),
    {
        match parse_decimal(last_used, u64::MAX) {
            Some(t) => now_secs >= t && now_secs - t > self.drop_idle_secs,
            None => false,
        }
    }

    /// The field that has been without queries for so long that it loses its
    /// index.
    pub fn field_to_drop(&self, key: &str, last_used: &str, now_secs: u64) -> (r: Option<String>)
        requires
            is_idle(last_used@, now_secs, self.drop_idle_secs) ==> !is_torn_key(key@),
        ensures
            string_view(r) == idle_field(key@, last_used@, now_secs, self.drop_idle_secs),
    {
        if self.is_forgotten(last_used, now_secs) {
            field_of_key(key)
        } else {
            None
        }
    }
}

/// A change to the statistics.
#[derive(Debug)]
pub enum StatsCommand {
    Incr { key: String },
    Expire { key: String, secs: i64 },
    Put { key: String, value: String },
    Del { key: String },
}

/// What a change to the statistics is.
#[verifier::ext_equal]
pub enum StatsView {
    Incr { key: Seq<char> },
    Expire { key: Seq<char>, secs: int },
    Put { key: Seq<char>, value: Seq<char> },
    Del { key: Seq<char> },
}

impl View for StatsCommand {
    type V = StatsView;

    open spec fn view(&self) -> StatsView {
        match self {
            StatsCommand::Incr { key } => StatsView::Incr { key: key@ },
            StatsCommand::Expire { key, secs } => StatsView::Expire { key: key@, secs: *secs as int },
            StatsCommand::Put { key, value } => StatsView::Put { key: key@, value: value@ },
            StatsCommand::Del { key } => StatsView::Del { key: key@ },
        }
    }
}

pub open spec fn stats_views(s: Seq<StatsCommand>) -> Seq<StatsView> {
    s.map_values(|c: StatsCommand| c@)
}

/// A time as the signed number of the same bits.
pub open spec fn signed(secs: u64) -> int {
    if secs <= i64::MAX {
        secs as int
    } else {
        secs - 0x1_0000_0000_0000_0000
    }
}

/// What counts a query on a field and dates it.
pub open spec fn query_record(
    prefix: Seq<char>,
    db: Seq<char>,
    collection: Seq<char>,
    field: Seq<char>,
    now_ms: u64,
    window_secs: u64,
    drop_idle_secs: u64,
) -> Seq<StatsView> {
    let queries = stats_name(prefix, db, collection, field, "queries"@);
    let last_used = stats_name(prefix, db, collection, field, "last_used"@);
    seq![
        StatsView::Incr { key: queries },
        StatsView::Expire { key: queries, secs: signed(window_secs) },
        StatsView::Put { key: last_used, value: decimal_text((now_ms / 1000) as nat) },
        StatsView::Expire { key: last_used, secs: signed(drop_idle_secs) },
    ]
}

/// What notes that a field has an index.
pub open spec fn index_note(
    prefix: Seq<char>,
    db: Seq<char>,
    collection: Seq<char>,
    field: Seq<char>,
) -> StatsView {
    StatsView::Put { key: stats_name(prefix, db, collection, field, "exists"@), value: "1"@ }
}

/// What forgets a field.
pub open spec fn field_forgotten(
    prefix: Seq<char>,
    db: Seq<char>,
    collection: Seq<char>,
    field: Seq<char>,
) -> Seq<StatsView> {
    seq![
        StatsView::Del { key: stats_name(prefix, db, collection, field, "exists"@) },
        StatsView::Del { key: stats_name(prefix, db, collection, field, "queries"@) },
        StatsView::Del { key: stats_name(prefix, db, collection, field, "last_used"@) },
    ]
}

fn to_signed(secs: u64) -> (r: i64)
    ensures
        r == signed(secs),
{
    if secs <= i64::MAX as u64 {
        secs as i64
    } else {
        (secs as i128 - 0x1_0000_0000_0000_0000) as i64
    }
}

impl AutoIndexManager {
    /// What counts a query on a field that is made now.
    pub fn record_query_field(&self, db: &str, collection: &str, field: &str, now_ms: u64) -> (r:
        Vec<StatsCommand>)
        ensures
            stats_views(r@) == query_record(
                self.prefix@,
                db@,
                collection@,
                field@,
                now_ms,
                self.window_secs,
                self.drop_idle_secs,
            ),
    {
        let mut r: Vec<StatsCommand> = Vec::new();
        r.push(StatsCommand::Incr { key: self.stats_key(db, collection, field) });
        r.push(
            StatsCommand::Expire {
                key: self.stats_key(db, collection, field),
                secs: to_signed(self.window_secs),
            },
        );
        r.push(
            StatsCommand::Put {
                key: self.last_used_key(db, collection, field),
                value: write_decimal(now_ms / 1000),
            },
        );
        r.push(
            StatsCommand::Expire {
                key: self.last_used_key(db, collection, field),
                secs: to_signed(self.drop_idle_secs),
            },
        );
        r
    }

    /// What notes that a field has an index now.
    pub fn note_index(&self, db: &str, collection: &str, field: &str) -> (r: StatsCommand)
        ensures
            r@ == index_note(self.prefix@, db@, collection@, field@),
    {
        StatsCommand::Put { key: self.index_exists_key(db, collection, field), value: owned("1") }
    }

    /// What forgets a field that has lost its index.
    pub fn forget_field(&self, db: &str, collection: &str, field: &str) -> (r: Vec<StatsCommand>)
        ensures
            stats_views(r@) == field_forgotten(self.prefix@, db@, collection@, field@),
    {
        let mut r: Vec<StatsCommand> = Vec::new();
        r.push(StatsCommand::Del { key: self.index_exists_key(db, collection, field) });
        r.push(StatsCommand::Del { key: self.stats_key(db, collection, field) });
        r.push(StatsCommand::Del { key: self.last_used_key(db, collection, field) });
        r
    }
}

/// The name that the database gives to the index on a field.
pub fn index_name(field: &str) -> (r: String)
    ensures
        r@ == field@ + "_1"@,
{
    crate::text::cat(field, "_1")
}

proof fn lemma_hex_round_trip(bytes: Seq<u8>)
    ensures
        hex_bytes(hex_text(bytes)) == Some(bytes),
        !is_torn(hex_text(bytes)),
    decreases bytes.len(),
{
    crate::text::lemma_hex_text(bytes);
    let t = hex_text(bytes);
    if bytes.len() > 0 {
        let rest = bytes.drop_first();
        let n = bytes[0] as nat;
        lemma_hex_round_trip(rest);
        crate::text::lemma_hex_text(rest);
        assert(t[0] == crate::text::hex_char(n / 16));
        assert(t[1] == crate::text::hex_char(n % 16));
        assert(t.skip(2) == hex_text(rest)) by {
            assert(t.len() == 2 * bytes.len());
            assert forall|i: int| 0 <= i < hex_text(rest).len() implies t.skip(2)[i] == hex_text(
                rest,
            )[i] by {
                let j = i / 2;
                assert(t[2 * (j + 1)] == crate::text::hex_char(bytes[j + 1] as nat / 16));
                assert(t[2 * (j + 1) + 1] == crate::text::hex_char(bytes[j + 1] as nat % 16));
                assert(hex_text(rest)[2 * j] == crate::text::hex_char(rest[j] as nat / 16));
                assert(hex_text(rest)[2 * j + 1] == crate::text::hex_char(rest[j] as nat % 16));
                assert(rest[j] == bytes[j + 1]);
            }
        }
        assert(pair_value(t[0], t[1]) == Some(bytes[0]));
        assert(seq![bytes[0]] + rest == bytes);
    }
}

/// The name under which statistics of a field are kept gives the field back.
pub proof fn lemma_field_from_stats_name(
    prefix: Seq<char>,
    db: Seq<char>,
    collection: Seq<char>,
    field: Seq<char>,
    what: Seq<char>,
)
    requires
        !what.contains(':'),
    ensures
        !is_torn_key(stats_name(prefix, db, collection, field, what)),
        named_field(stats_name(prefix, db, collection, field, what)) == Some(field),
{
    let a = link(prefix, segment(db));
    let b = link(a, segment(collection));
    let c = link(b, segment(field));
    let key = link(c, what);
    crate::text::lemma_segment_has_no_separator(db);
    crate::text::lemma_segment_has_no_separator(collection);
    crate::text::lemma_segment_has_no_separator(field);
    crate::text::lemma_pieces_single(segment(db), ':');
    crate::text::lemma_pieces_single(segment(collection), ':');
    crate::text::lemma_pieces_single(segment(field), ':');
    crate::text::lemma_pieces_single(what, ':');
    crate::text::lemma_pieces_linked(prefix, segment(db), ':');
    crate::text::lemma_pieces_linked(a, segment(collection), ':');
    crate::text::lemma_pieces_linked(b, segment(field), ':');
    crate::text::lemma_pieces_linked(c, what, ':');
    crate::text::lemma_pieces_nonempty(prefix, ':');
    let p = pieces(key, ':');
    assert(p.len() == pieces(prefix, ':').len() + 4);
    assert(p[p.len() - 2] == segment(field));
    lemma_hex_round_trip(encode_utf8(field));
    encode_utf8_valid_utf8(field);
    encode_utf8_decode_utf8(field);
}

/// A field loses its index exactly when more time than it may be idle has gone
/// by since the query on it that was counted last.
pub proof fn lemma_idle_field(
    prefix: Seq<char>,
    db: Seq<char>,
    collection: Seq<char>,
    field: Seq<char>,
    recorded_ms: u64,
    now_secs: u64,
    drop_idle_secs: u64,
)
    ensures
        idle_field(
            stats_name(prefix, db, collection, field, "last_used"@),
            decimal_text((recorded_ms / 1000) as nat),
            now_secs,
            drop_idle_secs,
        ) == (if now_secs - recorded_ms / 1000 > drop_idle_secs {
            Some(field)
        } else {
            None
        }),
{
    reveal_strlit("last_used");
    assert(!"last_used"@.contains(':'));
    crate::text::lemma_decimal_round_trip((recorded_ms / 1000) as nat, u64::MAX as nat);
    lemma_field_from_stats_name(prefix, db, collection, field, "last_used"@);
}

} // verus!
