//! Backups of databases: where they go, what they hold, how they are packed and
//! when the next one is due.

use crate::database::Database;
use crate::json::{entry_views, Json, JsonView};
use crate::object::{set_entry, text_value, with_key};
use crate::request::{no_entries, put};
use crate::text::{
    cat, cat3, chars_of, decimal_text, digit_char, is_white, owned, string_of, strip_back, strip_front, texts,
    trim, trimmed, write_decimal,
};
use crate::update::copy_list;
use crate::wire::{text_of, to_text};
use vstd::prelude::*;
use vstd::utf8::{decode_utf8, valid_utf8};

verus! {

broadcast use crate::json::group_json_views;

/// Characters that a file name cannot hold everywhere: control characters and
/// those with a meaning in paths and patterns.
pub open spec fn is_unsafe(c: char) -> bool {
    c == '<' || c == '>' || c == ':' || c == '"' || c == '/' || c == '\\' || c == '|' || c == '?' || c
        == '*' || c as u32 <= 0x1f || 0x7f <= c as u32 <= 0x9f
}

fn unsafe_char(c: char) -> (r: bool)
    ensures
        r == is_unsafe(c),
{
    c == '<' || c == '>' || c == ':' || c == '"' || c == '/' || c == '\\' || c == '|' || c == '?' || c
        == '*' || (c as u32) <= 0x1f || (0x7f <= (c as u32) && (c as u32) <= 0x9f)
}

/// The character that stands for one in a file name.
pub open spec fn safe_char(c: char) -> char {
    if is_unsafe(c) {
        '_'
    } else {
        c
    }
}

pub open spec fn is_dot(c: char) -> bool {
    c == '.'
}

/// A text without dots at its ends.
pub open spec fn undotted(s: Seq<char>) -> Seq<char> {
    strip_back(strip_front(s, |c: char| is_dot(c)), |c: char| is_dot(c))
}

fn trim_dots(s: &str) -> (r: String)
    ensures
        r@ == undotted(s@),
{
    let chars = chars_of(s);
    let ghost p = |c: char| is_dot(c);
    let mut from: usize = 0;
    assert(chars@.skip(0) == chars@);
    while from < chars.len() && chars[from] == '.'
        invariant
            from <= chars@.len(),
            chars@ == s@,
            p == (|c: char| is_dot(c)),
            strip_front(s@, p) == strip_front(chars@.skip(from as int), p),
        decreases chars@.len() - from,
    {
        let ghost rest = chars@.skip(from as int);
        assert(p(rest[0]));
        assert(rest.drop_first() == chars@.skip(from + 1));
        from = from + 1;
    }
    let ghost kept = chars@.subrange(from as int, chars@.len() as int);
    assert(kept == chars@.skip(from as int));
    assert(strip_front(s@, p) == kept) by {
        if kept.len() > 0 {
            assert(!p(kept[0]));
        }
    }
    let mut to: usize = chars.len();
    while to > from && chars[to - 1] == '.'
        invariant
            from <= to <= chars@.len(),
            p == (|c: char| is_dot(c)),
            strip_back(kept, p) == strip_back(chars@.subrange(from as int, to as int), p),
        decreases to,
    {
        let ghost rest = chars@.subrange(from as int, to as int);
        assert(p(rest.last()));
        assert(rest.drop_last() == chars@.subrange(from as int, to - 1));
        to = to - 1;
    }
    let ghost last = chars@.subrange(from as int, to as int);
    assert(strip_back(kept, p) == last) by {
        if last.len() > 0 {
            assert(!p(last.last()));
        }
    }
    string_of(&chars, from, to)
}

/// The file name that stands for a name.
pub open spec fn file_component(name: Seq<char>) -> Seq<char> {
    let safe = undotted(trimmed(name.map_values(|c: char| safe_char(c))));
    if safe.len() == 0 {
        "database"@
    } else {
        safe
    }
}

/// The file name that stands for a name.
pub fn sanitize_file_component(name: &str) -> (r: String)
    ensures
        r@ == file_component(name@),
{
    let chars = chars_of(name);
    let mut out: Vec<char> = Vec::new();
    let mut i: usize = 0;
    while i < chars.len()
        invariant
            i <= chars@.len(),
            out@ == chars@.take(i as int).map_values(|c: char| safe_char(c)),
        decreases chars@.len() - i,
    {
        out.push(
            if unsafe_char(chars[i]) {
                '_'
            } else {
                chars[i]
            },
        );
        i = i + 1;
        assert(out@ == chars@.take(i as int).map_values(|c: char| safe_char(c)));
    }
    assert(chars@.take(i as int) == chars@);
    let all = string_of(&out, 0, out.len());
    assert(all@ == out@);
    let safe = trim_dots(trim(all.as_str()).as_str());
    if chars_of(safe.as_str()).len() == 0 {
        owned("database")
    } else {
        safe
    }
}

proof fn lemma_strip_keeps(s: Seq<char>, drop: spec_fn(char) -> bool, keep: spec_fn(char) -> bool)
    requires
        forall|i: int| 0 <= i < s.len() ==> keep(#[trigger] s[i]),
    ensures
        forall|i: int| 0 <= i < strip_front(s, drop).len() ==> keep(#[trigger] strip_front(s, drop)[i]),
        forall|i: int| 0 <= i < strip_back(s, drop).len() ==> keep(#[trigger] strip_back(s, drop)[i]),
    decreases s.len(),
{
    if s.len() > 0 {
        assert forall|i: int| 0 <= i < s.drop_first().len() implies keep(
            #[trigger] s.drop_first()[i],
        ) by {
            assert(s.drop_first()[i] == s[i + 1]);
        }
        assert forall|i: int| 0 <= i < s.drop_last().len() implies keep(
            #[trigger] s.drop_last()[i],
        ) by {
            assert(s.drop_last()[i] == s[i]);
        }
        lemma_strip_keeps(s.drop_first(), drop, keep);
        lemma_strip_keeps(s.drop_last(), drop, keep);
        assert forall|i: int| 0 <= i < strip_front(s, drop).len() implies keep(
            #[trigger] strip_front(s, drop)[i],
        ) by {
            if drop(s[0]) {
                assert(strip_front(s, drop) == strip_front(s.drop_first(), drop));
                assert(keep(strip_front(s.drop_first(), drop)[i]));
            } else {
                assert(keep(s[i]));
            }
        }
        assert forall|i: int| 0 <= i < strip_back(s, drop).len() implies keep(
            #[trigger] strip_back(s, drop)[i],
        ) by {
            if drop(s.last()) {
                assert(strip_back(s, drop) == strip_back(s.drop_last(), drop));
                assert(keep(strip_back(s.drop_last(), drop)[i]));
            } else {
                assert(keep(s[i]));
            }
        }
    }
}

proof fn lemma_strip_back_ends(s: Seq<char>, drop: spec_fn(char) -> bool)
    requires
        s.len() > 0 ==> !drop(s[0]),
    ensures
        strip_back(s, drop).len() > 0 ==> !drop(strip_back(s, drop)[0]) && !drop(
            strip_back(s, drop).last(),
        ),
    decreases s.len(),
{
    if s.len() > 1 && drop(s.last()) {
        assert(s.drop_last()[0] == s[0]);
        lemma_strip_back_ends(s.drop_last(), drop);
    }
}

proof fn lemma_strip_front_starts(s: Seq<char>, drop: spec_fn(char) -> bool)
    ensures
        strip_front(s, drop).len() > 0 ==> !drop(strip_front(s, drop)[0]),
    decreases s.len(),
{
    if s.len() > 0 && drop(s[0]) {
        lemma_strip_front_starts(s.drop_first(), drop);
    }
}

/// A file name is never empty, holds no character that a path or a pattern
/// gives a meaning to, and neither starts nor ends with a dot: it names a file
/// inside its directory.
pub proof fn lemma_file_component_safe(name: Seq<char>)
    ensures
        file_component(name).len() > 0,
        forall|i: int|
            0 <= i < file_component(name).len() ==> !is_unsafe(#[trigger] file_component(name)[i]),
        file_component(name)[0] != '.',
        file_component(name).last() != '.',
{
    reveal_strlit("database");
    let all = name.map_values(|c: char| safe_char(c));
    let keep = |c: char| !is_unsafe(c);
    let white = |c: char| is_white(c);
    let dot = |c: char| is_dot(c);
    assert forall|i: int| 0 <= i < all.len() implies keep(#[trigger] all[i]) by {
        assert(all[i] == safe_char(name[i]));
    }
    lemma_strip_keeps(all, white, keep);
    let front = strip_front(all, white);
    lemma_strip_keeps(front, white, keep);
    let t = strip_back(front, white);
    assert(t == trimmed(all));
    lemma_strip_keeps(t, dot, keep);
    let u = strip_front(t, dot);
    lemma_strip_keeps(u, dot, keep);
    let v = strip_back(u, dot);
    assert(v == undotted(t));
    lemma_strip_front_starts(t, dot);
    lemma_strip_back_ends(u, dot);
    if v.len() > 0 {
        assert(file_component(name) == v);
        assert forall|i: int| 0 <= i < v.len() implies !is_unsafe(#[trigger] v[i]) by {
            assert(keep(v[i]));
        }
        assert(!dot(v[0]) && !dot(v.last()));
    }
}

/// A local time.
#[derive(Debug, Clone, Copy, PartialEq, Eq, Structural)]
pub struct LocalTime {
    pub year: i32,
    pub month: u32,
    pub day: u32,
    pub hour: u32,
    pub minute: u32,
    pub second: u32,
    pub nanosecond: u32,
}

impl LocalTime {
    /// The fields are those of a calendar and a clock; in a leap second the
    /// clock may show sixty seconds.
    pub open spec fn valid(self) -> bool {
        &&& 1 <= self.month <= 12
        &&& 1 <= self.day <= 31
        &&& self.hour < 24
        &&& self.minute < 60
        &&& self.second <= 60
    }
}

/// A number below a hundred in two digits.
pub open spec fn two_digits(n: nat) -> Seq<char> {
    seq![digit_char(n / 10), digit_char(n % 10)]
}

fn write_two_digits(n: u32) -> (r: String)
    requires
        n < 100,
    ensures
        r@ == two_digits(n as nat),
{
    let mut out: String = String::new();
    out.push((48u8 + (n / 10) as u8) as char);
    out.push((48u8 + (n % 10) as u8) as char);
    assert(out@ == two_digits(n as nat));
    out
}

/// A number in at least four digits.
pub open spec fn four_digits(n: nat) -> Seq<char> {
    if n < 10 {
        "000"@ + decimal_text(n)
    } else if n < 100 {
        "00"@ + decimal_text(n)
    } else if n < 1000 {
        "0"@ + decimal_text(n)
    } else {
        decimal_text(n)
    }
}

fn write_four_digits(n: u64) -> (r: String)
    ensures
        r@ == four_digits(n as nat),
{
    let digits = write_decimal(n);
    if n < 10 {
        cat("000", digits.as_str())
    } else if n < 100 {
        cat("00", digits.as_str())
    } else if n < 1000 {
        cat("0", digits.as_str())
    } else {
        digits
    }
}

/// A year in at least four digits, with a sign where four are not enough or it
/// lies before the year zero.
pub open spec fn year_text(year: int) -> Seq<char> {
    if year < 0 {
        "-"@ + four_digits((-year) as nat)
    } else if year > 9999 {
        "+"@ + four_digits(year as nat)
    } else {
        four_digits(year as nat)
    }
}

fn write_year(year: i32) -> (r: String)
    ensures
        r@ == year_text(year as int),
{
    if year < 0 {
        cat("-", write_four_digits((-(year as i64)) as u64).as_str())
    } else if year > 9999 {
        cat("+", write_four_digits(year as u64).as_str())
    } else {
        write_four_digits(year as u64)
    }
}

/// Three texts with hyphens between them.
pub open spec fn hyphened(a: Seq<char>, b: Seq<char>, c: Seq<char>) -> Seq<char> {
    a + "-"@ + (b + "-"@ + c)
}

fn hyphen(a: &str, b: &str, c: &str) -> (r: String)
    ensures
        r@ == hyphened(a@, b@, c@),
{
    cat3(a, "-", cat3(b, "-", c).as_str())
}

/// Where a backup goes: a directory for the day, in it one for the hour, in it
/// one for the half hour.
#[derive(Debug)]
pub struct BackupLayout {
    pub date_dir: String,
    pub hour_dir: String,
    pub slot_dir: String,
    pub timestamp: String,
}

pub open spec fn date_text(t: LocalTime) -> Seq<char> {
    hyphened(year_text(t.year as int), two_digits(t.month as nat), two_digits(t.day as nat))
}

pub open spec fn clock_text(t: LocalTime) -> Seq<char> {
    hyphened(two_digits(t.hour as nat), two_digits(t.minute as nat), two_digits(t.second as nat))
}

/// The name of the half hour of a time.
pub open spec fn slot_name(t: LocalTime) -> Seq<char> {
    if t.minute < 30 {
        "backup_00"@
    } else {
        "backup_30"@
    }
}

/// Where a backup made at a time goes.
pub fn backup_layout(now: LocalTime) -> (r: BackupLayout)
    requires
        now.valid(),
    ensures
        r.date_dir@ == date_text(now),
        r.hour_dir@ == two_digits(now.hour as nat),
        r.slot_dir@ == slot_name(now),
        r.timestamp@ == date_text(now) + "_"@ + clock_text(now),
{
    let year = write_year(now.year);
    let month = write_two_digits(now.month);
    let day = write_two_digits(now.day);
    let hour = write_two_digits(now.hour);
    let minute = write_two_digits(now.minute);
    let second = write_two_digits(now.second);
    let date = hyphen(year.as_str(), month.as_str(), day.as_str());
    let clock = hyphen(hour.as_str(), minute.as_str(), second.as_str());
    let timestamp = cat3(date.as_str(), "_", clock.as_str());
    BackupLayout {
        date_dir: date,
        hour_dir: hour,
        slot_dir: if now.minute < 30 {
            owned("backup_00")
        } else {
            owned("backup_30")
        },
        timestamp,
    }
}

/// The seconds and nanoseconds to wait for the next half hour.  A started
/// second is waited out on top of the whole seconds that are left.
pub open spec fn slot_delay(now: LocalTime) -> (int, int) {
    let next: int = if now.minute < 30 {
        30
    } else {
        60
    };
    (
        (next - now.minute) * 60 - now.second,
        if now.nanosecond > 0 {
            1_000_000_000 - now.nanosecond
        } else {
            0
        },
    )
}

/// How long it is to the next half hour, in seconds and nanoseconds.
pub fn time_until_next_backup_slot(now: LocalTime) -> (r: (u64, u32))
    requires
        now.valid(),
        now.nanosecond <= 1_000_000_000,
    ensures
        (r.0 as int, r.1 as int) == slot_delay(now),
        r.1 < 1_000_000_000,
{
    let next: u32 = if now.minute < 30 {
        30
    } else {
        60
    };
    let secs: u32 = (next - now.minute) * 60 - now.second;
    let nanos: u32 = if now.nanosecond > 0 {
        1_000_000_000 - now.nanosecond
    } else {
        0
    };
    (secs as u64, nanos)
}

/// The seconds and nanoseconds to wait for the next backup.
pub open spec fn delay_of(interval_mins: u64, now: LocalTime) -> (int, int) {
    if interval_mins == 30 {
        slot_delay(now)
    } else if interval_mins * 60 <= u64::MAX {
        (interval_mins * 60, 0)
    } else {
        (u64::MAX as int, 0)
    }
}

/// How long it is to the next backup: with the usual interval, to the next half
/// hour; with another one, that many minutes.
pub fn backup_delay(interval_mins: u64, now: LocalTime) -> (r: (u64, u32))
    requires
        now.valid(),
        now.nanosecond <= 1_000_000_000,
    ensures
        (r.0 as int, r.1 as int) == delay_of(interval_mins, now),
        r.1 < 1_000_000_000,
{
    if interval_mins == 30 {
        time_until_next_backup_slot(now)
    } else if interval_mins <= u64::MAX / 60 {
        (interval_mins * 60, 0)
    } else {
        (u64::MAX, 0)
    }
}

/// Nanoseconds since the full hour.
pub open spec fn in_hour(now: LocalTime) -> int {
    (now.minute * 60 + now.second) * 1_000_000_000 + now.nanosecond
}

/// Waiting to the next half hour ends on it, or within the first second after
/// it where a second had started, and never takes longer than half an hour and
/// a second.
pub proof fn lemma_wait_ends_on_slot(now: LocalTime)
    requires
        now.valid(),
        now.second < 60,
        now.nanosecond < 1_000_000_000,
    ensures
        ({
            let d = slot_delay(now);
            let end = in_hour(now) + d.0 * 1_000_000_000 + d.1;
            let slot: int = if now.minute < 30 {
                1800
            } else {
                3600
            };
            &&& 0 < d.0 <= 1800
            &&& 0 <= d.1 < 1_000_000_000
            &&& now.nanosecond == 0 ==> end == slot * 1_000_000_000
            &&& now.nanosecond > 0 ==> end == (slot + 1) * 1_000_000_000
        }),
{
}

/// The collections of a database as a JSON object.
pub open spec fn stored(db: Seq<(Seq<char>, Seq<JsonView>)>) -> Seq<(Seq<char>, JsonView)>
    decreases db.len(),
{
    if db.len() == 0 {
        Seq::empty()
    } else {
        with_key(stored(db.drop_last()), db.last().0, JsonView::Array(db.last().1))
    }
}

/// What a backup holds.
pub open spec fn snapshot(
    name: Seq<char>,
    timestamp: Seq<char>,
    db: Seq<(Seq<char>, Seq<JsonView>)>,
) -> JsonView {
    JsonView::Object(
        seq![
            ("database_name"@, JsonView::String(name)),
            ("created_at_local"@, JsonView::String(timestamp)),
            ("collections"@, JsonView::Object(stored(db))),
        ],
    )
}

/// The text of a backup of a database.
pub fn backup_payload(database_name: &str, timestamp: &str, database: &Database) -> (r: String)
    ensures
        r@ == text_of(snapshot(database_name@, timestamp@, database@)),
{
    let ghost all = database@;
    let mut c = no_entries();
    let mut i: usize = 0;
    assert(all.take(0) == Seq::<(Seq<char>, Seq<JsonView>)>::empty());
    while i < database.collections.len()
        invariant
            i <= database.collections@.len(),
            all == database@,
            entry_views(c@) == stored(all.take(i as int)),
        decreases database.collections@.len() - i,
    {
        assert(all.take(i + 1).drop_last() == all.take(i as int));
        assert(all.take(i + 1).last() == all[i as int]);
        set_entry(
            &mut c,
            database.collections[i].0.as_str(),
            Json::Array(copy_list(&database.collections[i].1)),
        );
        i = i + 1;
    }
    assert(all.take(i as int) == all);
    let mut o = no_entries();
    put(&mut o, "database_name", text_value(database_name));
    put(&mut o, "created_at_local", text_value(timestamp));
    put(&mut o, "collections", Json::Object(c));
    let v = Json::Object(o);
    assert(v@->Object_0 == snapshot(database_name@, timestamp@, database@)->Object_0);
    to_text(&v)
}

/// The files of a backup: the text that is packed, and the two archives that it
/// can end up in.
#[derive(Debug)]
pub struct BackupFiles {
    pub temp_json: String,
    pub archive_7z: String,
    pub archive_gz: String,
}

/// The files of the backup of a database.
pub fn backup_files(database_name: &str) -> (r: BackupFiles)
    ensures
        r.temp_json@ == file_component(database_name@) + ".json"@,
        r.archive_7z@ == file_component(database_name@) + ".7z"@,
        r.archive_gz@ == file_component(database_name@) + ".json.gz"@,
{
    let stem = sanitize_file_component(database_name);
    BackupFiles {
        temp_json: cat(stem.as_str(), ".json"),
        archive_7z: cat(stem.as_str(), ".7z"),
        archive_gz: cat(stem.as_str(), ".json.gz"),
    }
}

/// The arguments with which 7-Zip packs a file.
pub fn archive_args(archive: &str, temp_json: &str) -> (r: Vec<String>)
    ensures
        texts(r@) == seq![
            "a"@,
            "-t7z"@,
            "-mx=9"@,
            "-m0=LZMA2"@,
            "-mfb=273"@,
            "-md=64m"@,
            "-ms=on"@,
            archive@,
            temp_json@,
        ],
{
    let mut v: Vec<String> = Vec::new();
    v.push(owned("a"));
    v.push(owned("-t7z"));
    v.push(owned("-mx=9"));
    v.push(owned("-m0=LZMA2"));
    v.push(owned("-mfb=273"));
    v.push(owned("-md=64m"));
    v.push(owned("-ms=on"));
    v.push(owned(archive));
    v.push(owned(temp_json));
    v
}

/// What a program that ran left behind.
#[derive(Debug)]
pub struct RunOutput {
    pub success: bool,
    pub stdout: Vec<u8>,
    pub stderr: Vec<u8>,
}

/// What to do next to pack a backup.
#[derive(Debug)]
pub enum ArchiveStep {
    /// Run a program.
    Run { executable: String },
    /// The archive is there.
    Written,
    /// 7-Zip did not do it, for a reason: pack the backup with gzip.
    Gzip { reason: String },
}

/// What to do next to pack a backup.
pub enum ArchiveStepView {
    Run { executable: Seq<char> },
    Written,
    Gzip { reason: Seq<char> },
}

impl View for ArchiveStep {
    type V = ArchiveStepView;

    open spec fn view(&self) -> ArchiveStepView {
        match self {
            ArchiveStep::Run { executable } => ArchiveStepView::Run { executable: executable@ },
            ArchiveStep::Written => ArchiveStepView::Written,
            ArchiveStep::Gzip { reason } => ArchiveStepView::Gzip { reason: reason@ },
        }
    }
}

/// What `String::from_utf8_lossy` makes of bytes.
pub uninterp spec fn lossy_utf8(bytes: Seq<u8>) -> Seq<char>;

/// `String::from_utf8_lossy`: bytes that are UTF-8 are taken as the text that
/// they encode; what becomes of others depends on the bytes alone.
#[verifier::external_body]
fn lossy_text(bytes: &Vec<u8>) -> (r: String)
    ensures
        r@ == lossy_utf8(bytes@),
        valid_utf8(bytes@) ==> r@ == decode_utf8(bytes@),
{
    String::from_utf8_lossy(bytes).to_string()
}

/// What a program that failed says of it: what it wrote to its error output, or
/// where that is empty, to its output.
pub open spec fn failure_reason(
    executable: Seq<char>,
    stderr: Seq<char>,
    stdout: Seq<char>,
) -> Seq<char> {
    executable + " failed: "@ + (if trimmed(stderr).len() > 0 {
        trimmed(stderr)
    } else {
        trimmed(stdout)
    })
}

/// What a program that failed says of it.
pub fn run_failure(executable: &str, stderr: &str, stdout: &str) -> (r: String)
    ensures
        r@ == failure_reason(executable@, stderr@, stdout@),
{
    let err = trim(stderr);
    if chars_of(err.as_str()).len() > 0 {
        cat3(executable, " failed: ", err.as_str())
    } else {
        cat3(executable, " failed: ", trim(stdout).as_str())
    }
}

/// What to do after a try with 7-Zip: the first is `7z`, the second `7za`.
/// `output` is what a program that could be started left behind.
pub open spec fn next_archive_step(second: bool, output: Option<RunOutput>) -> ArchiveStepView {
    let executable = if second {
        "7za"@
    } else {
        "7z"@
    };
    match output {
        Some(o) => if o.success {
            ArchiveStepView::Written
        } else {
            ArchiveStepView::Gzip {
                reason: failure_reason(executable, lossy_utf8(o.stderr@), lossy_utf8(o.stdout@)),
            }
        },
        None => if second {
            ArchiveStepView::Gzip { reason: "7z executable not found in PATH"@ }
        } else {
            ArchiveStepView::Run { executable: "7za"@ }
        },
    }
}

/// What to do first to pack a backup.
pub fn first_archive_step() -> (r: ArchiveStep)
    ensures
        r@ == (ArchiveStepView::Run { executable: "7z"@ }),
{
    ArchiveStep::Run { executable: owned("7z") }
}

/// What to do after a try with 7-Zip.
pub fn archive_step(second: bool, output: &Option<RunOutput>) -> (r: ArchiveStep)
    ensures
        r@ == next_archive_step(second, *output),
{
    let executable = if second {
        "7za"
    } else {
        "7z"
    };
    match output {
        Some(o) => if o.success {
            ArchiveStep::Written
        } else {
            ArchiveStep::Gzip {
                reason: run_failure(
                    executable,
                    lossy_text(&o.stderr).as_str(),
                    lossy_text(&o.stdout).as_str(),
                ),
            }
        },
        None => if second {
            ArchiveStep::Gzip { reason: owned("7z executable not found in PATH") }
        } else {
            ArchiveStep::Run { executable: owned("7za") }
        },
    }
}

/// What `flate2::read::GzDecoder` reads out of an archive, where it can.
pub uninterp spec fn unpacked(archive: Seq<u8>) -> Option<Seq<u8>>;

/// What `flate2::write::GzEncoder` makes of a payload at its best compression:
/// the archive, or an error with whether it arose in finishing the archive.
pub uninterp spec fn gzipped(payload: Seq<u8>) -> Result<Seq<u8>, (bool, Seq<char>)>;

/// `flate2::write::GzEncoder` at its best compression, with its methods
/// `write_all` and `finish`: what they give depends on the payload alone, and an
/// archive that they make unpacks to what was packed.
#[verifier::external_body]
fn gzip(payload: &Vec<u8>) -> (r: Result<Vec<u8>, (bool, String)>)
    ensures
        match r {
            Ok(archive) => gzipped(payload@) == Ok::<Seq<u8>, (bool, Seq<char>)>(archive@),
            Err((finishing, e)) => gzipped(payload@) == Err::<Seq<u8>, (bool, Seq<char>)>(
                (finishing, e@),
            ),
        },
        r matches Ok(archive) ==> unpacked(archive@) == Some(payload@),
{
    let mut encoder = flate2::write::GzEncoder::new(Vec::new(), flate2::Compression::best());
    match std::io::Write::write_all(&mut encoder, payload) {
        Ok(()) => match encoder.finish() {
            Ok(archive) => Ok(archive),
            Err(e) => Err((true, format!("{e}"))),
        },
        Err(e) => Err((false, format!("{e}"))),
    }
}

/// An archive, or the error of making it.
pub fn gzip_result(packed: Result<Vec<u8>, (bool, String)>) -> (r: Result<Vec<u8>, String>)
    ensures
        match packed {
            Ok(archive) => r == Ok::<Vec<u8>, String>(archive),
            Err((finishing, e)) => r matches Err(m) && m@ == (if finishing {
                "Failed to finalize gzip payload: "@
            } else {
                "Failed to write gzip payload: "@
            }) + e@,
        },
{
    match packed {
        Ok(archive) => Ok(archive),
        Err((finishing, e)) => if finishing {
            Err(cat("Failed to finalize gzip payload: ", e.as_str()))
        } else {
            Err(cat("Failed to write gzip payload: ", e.as_str()))
        },
    }
}

/// A backup packed with gzip.
pub fn gzip_archive(payload: &Vec<u8>) -> (r: Result<Vec<u8>, String>)
    ensures
        match gzipped(payload@) {
            Ok(archive) => (r matches Ok(v) && v@ == archive) && unpacked(archive) == Some(
                payload@,
            ),
            Err((finishing, e)) => r matches Err(m) && m@ == (if finishing {
                "Failed to finalize gzip payload: "@
            } else {
                "Failed to write gzip payload: "@
            }) + e,
        },
{
    gzip_result(gzip(payload))
}

/// Where a backup can fail on a file.
#[derive(Debug, Clone, Copy, PartialEq, Eq, Structural)]
pub enum FileFault {
    Directory,
    TempFile,
    GzipArchive,
}

/// The error that a file or directory of a backup could not be written.
pub fn file_failure(fault: FileFault, path: &str, error: &str) -> (r: String)
    ensures
        r@ == (match fault {
            FileFault::Directory => "Failed to create backup directory '"@,
            FileFault::TempFile => "Failed to write backup temp file '"@,
            FileFault::GzipArchive => "Failed to write gzip archive '"@,
        }) + path@ + ("': "@ + error@),
{
    let tail = cat("': ", error);
    match fault {
        FileFault::Directory => cat3("Failed to create backup directory '", path, tail.as_str()),
        FileFault::TempFile => cat3("Failed to write backup temp file '", path, tail.as_str()),
        FileFault::GzipArchive => cat3("Failed to write gzip archive '", path, tail.as_str()),
    }
}

/// The databases of a cycle, each with its error if its backup failed.
pub open spec fn outcome_views(v: Seq<(String, Option<String>)>) -> Seq<
    (Seq<char>, Option<Seq<char>>),
> {
    v.map_values(|e: (String, Option<String>)| (e.0@, crate::object::string_view(e.1)))
}

/// How many backups failed.
pub open spec fn failures(outcomes: Seq<(Seq<char>, Option<Seq<char>>)>) -> nat
    decreases outcomes.len(),
{
    if outcomes.len() == 0 {
        0
    } else {
        failures(outcomes.drop_last()) + (if outcomes.last().1 is Some {
            1nat
        } else {
            0
        })
    }
}

/// The errors of the backups that failed.
pub open spec fn failure_list(outcomes: Seq<(Seq<char>, Option<Seq<char>>)>) -> Seq<char>
    decreases outcomes.len(),
{
    if outcomes.len() == 0 {
        Seq::empty()
    } else {
        let head = failure_list(outcomes.drop_last());
        match outcomes.last().1 {
            Some(e) => {
                let item = outcomes.last().0 + ": "@ + e;
                if failures(outcomes.drop_last()) == 0 {
                    item
                } else {
                    head + " | "@ + item
                }
            },
            None => head,
        }
    }
}

/// What a cycle of backups came to.
#[derive(Debug)]
pub struct CycleSummary {
    pub completed: usize,
    pub failed: usize,
    pub result: Result<(), String>,
}

/// What a cycle of backups came to.
pub fn cycle_summary(outcomes: &Vec<(String, Option<String>)>) -> (r: CycleSummary)
    ensures
        r.failed == failures(outcome_views(outcomes@)),
        r.completed + r.failed == outcomes@.len(),
        r.result is Ok <==> r.failed == 0,
        r.result matches Err(e) ==> e@ == "Backup cycle completed with failures: "@ + failure_list(
            outcome_views(outcomes@),
        ),
{
    let ghost all = outcome_views(outcomes@);
    let mut list = owned("");
    let mut failed: usize = 0;
    let mut completed: usize = 0;
    let mut i: usize = 0;
    proof {
        reveal_strlit("");
        assert(all.take(0) == Seq::<(Seq<char>, Option<Seq<char>>)>::empty());
        assert(""@ == Seq::<char>::empty());
    }
    while i < outcomes.len()
        invariant
            i <= outcomes@.len(),
            all == outcome_views(outcomes@),
            failed == failures(all.take(i as int)),
            completed + failed == i,
            list@ == failure_list(all.take(i as int)),
        decreases outcomes@.len() - i,
    {
        assert(all.take(i + 1).drop_last() == all.take(i as int));
        assert(all.take(i + 1).last() == all[i as int]);
        match &outcomes[i].1 {
            Some(e) => {
                let item = cat3(outcomes[i].0.as_str(), ": ", e.as_str());
                list = if failed == 0 {
                    item
                } else {
                    cat3(list.as_str(), " | ", item.as_str())
                };
                failed = failed + 1;
            },
            None => {
                completed = completed + 1;
            },
        }
        i = i + 1;
    }
    assert(all.take(i as int) == all);
    CycleSummary {
        completed,
        failed,
        result: if failed > 0 {
            Err(cat("Backup cycle completed with failures: ", list.as_str()))
        } else {
            Ok(())
        },
    }
}

} // verus!
