//! What the settings and the command line make of the server, what it logs, and
//! what its backups are.

use crate::backup::{
    clock_text, date_text, delay_of, failure_list, failures, file_component, four_digits,
    lemma_file_component_safe, next_archive_step, safe_char, slot_name, snapshot, stored, two_digits, undotted,
    ArchiveStepView, LocalTime, RunOutput,
};
use crate::config::{
    cli_from, cli_of, config_of, is_serious, is_written, lenient_setting, level_named, level_of, level_text,
    number_setting, record_value, setting, tls_of, word_bool, CliArgs, LogLevel,
};
use crate::json::JsonView;
use crate::manylaws::{keys_differ, lemma_overlaid};
use crate::object::{field, lemma_key_at_is, lemma_lookup_with_key, lookup};
use crate::querylaws::integer;
use crate::scan::cleared_total;
use crate::text::{
    ascii_lowered, begins_with, cut, decimal, decimal_text, digit_char, digits_value, is_white,
    lemma_decimal_digits, lemma_decimal_round_trip, lemma_trimming_is_exact, strip_back, strip_front, trimmed,
};
use vstd::prelude::*;

verus! {

/// A setting is the first value under its name, without the white space around
/// it; a blank one counts as missing, as does one that is not there.
pub proof fn lemma_settings_are_read(
    env: Seq<(Seq<char>, Seq<char>)>,
    i: int,
    name: Seq<char>,
    before: Seq<char>,
    core: Seq<char>,
    after: Seq<char>,
)
    requires
        0 <= i <= env.len(),
        forall|j: int| 0 <= j < i ==> (#[trigger] env[j]).0 != name,
        i < env.len() ==> env[i] == (name, before + core + after),
        forall|j: int| 0 <= j < before.len() ==> is_white(#[trigger] before[j]),
        forall|j: int| 0 <= j < after.len() ==> is_white(#[trigger] after[j]),
        core.len() > 0 ==> !is_white(core[0]) && !is_white(core.last()),
    ensures
        setting(env, name) == (if i < env.len() && core.len() > 0 {
            Some(core)
        } else {
            None
        }),
    decreases i,
{
    if i == 0 {
        if env.len() > 0 {
            lemma_trimming_is_exact(before, core, after);
        }
    } else {
        let d = env.drop_first();
        assert(env[0].0 != name);
        assert forall|j: int| 0 <= j < i - 1 implies (#[trigger] d[j]).0 != name by {
            assert(d[j] == env[j + 1]);
        }
        lemma_settings_are_read(d, i - 1, name, before, core, after);
    }
}

/// The number that a setting holds in decimal digits.
pub open spec fn holds_number(env: Seq<(Seq<char>, Seq<char>)>, name: Seq<char>, n: u64) -> bool {
    setting(env, name) == Some(decimal_text(n as nat))
}

/// Whether a setting is not there, or blank.
pub open spec fn is_missing(env: Seq<(Seq<char>, Seq<char>)>, name: Seq<char>) -> bool {
    setting(env, name) is None
}

proof fn lemma_number(env: Seq<(Seq<char>, Seq<char>)>, name: Seq<char>, n: u64, default: u64)
    ensures
        holds_number(env, name, n) ==> number_setting(env, name, default) == Ok::<u64, Seq<char>>(n)
            && lenient_setting(env, name, default) == n,
        is_missing(env, name) ==> number_setting(env, name, default) == Ok::<u64, Seq<char>>(default)
            && lenient_setting(env, name, default) == default,
{
    lemma_decimal_round_trip(n as nat, u64::MAX as nat);
}

/// A server is set up by its settings, each for one thing: the addresses and the
/// directory are as they stand, the numbers as they read, and what is missing is
/// as usual.
#[verifier::rlimit(40)]
pub proof fn lemma_settings_are_used(
    args: Seq<Seq<char>>,
    env: Seq<(Seq<char>, Seq<char>)>,
    n: u64,
)
    requires
        config_of(args, env) is Ok,
    ensures
        ({
            let c = config_of(args, env)->Ok_0;
            &&& c.mongodb_uri == setting(env, "MICROSERVICEDB_MONGODB_URI"@)
            &&& c.dragonfly_url == setting(env, "MICROSERVICEDB_DRAGONFLY_URL"@)
            &&& c.backup_dir == setting(env, "MICROSERVICEDB_BACKUP_DIR"@)
            &&& holds_number(env, "DOC_CACHE_TTL_SECS"@, n) ==> c.doc_cache_ttl_secs == n
            &&& is_missing(env, "DOC_CACHE_TTL_SECS"@) ==> c.doc_cache_ttl_secs == 300
            &&& holds_number(env, "REQUEST_CACHE_TTL_SECS"@, n) && n <= 300 ==> c.request_cache_ttl_secs == n
            &&& holds_number(env, "REQUEST_CACHE_TTL_SECS"@, n) && n > 300 ==> c.request_cache_ttl_secs
                == 300
            &&& is_missing(env, "REQUEST_CACHE_TTL_SECS"@) ==> c.request_cache_ttl_secs == 300
            &&& holds_number(env, "MICROSERVICEDB_BACKUP_INTERVAL_MINS"@, n) ==> c.backup_interval_mins
                == Some(n)
            &&& is_missing(env, "MICROSERVICEDB_BACKUP_INTERVAL_MINS"@) ==> c.backup_interval_mins == Some(
                30u64,
            )
            &&& holds_number(env, "MICROSERVICEDB_AUTOINDEX_THRESHOLD"@, n) ==> c.autoindex_threshold == n
            &&& is_missing(env, "MICROSERVICEDB_AUTOINDEX_THRESHOLD"@) ==> c.autoindex_threshold == 50
            &&& holds_number(env, "MICROSERVICEDB_AUTOINDEX_WINDOW_SECS"@, n) ==> c.autoindex_window_secs
                == n
            &&& is_missing(env, "MICROSERVICEDB_AUTOINDEX_WINDOW_SECS"@) ==> c.autoindex_window_secs == 600
            &&& holds_number(env, "MICROSERVICEDB_AUTOINDEX_DROP_IDLE_SECS"@, n)
                ==> c.autoindex_drop_idle_secs == n
            &&& is_missing(env, "MICROSERVICEDB_AUTOINDEX_DROP_IDLE_SECS"@) ==> c.autoindex_drop_idle_secs
                == 86400
            &&& args.len() == 0 && holds_number(env, "MICROSERVICEDB_PORT"@, n) && n <= 65535 ==> c.port == n
            &&& args.len() == 0 && is_missing(env, "MICROSERVICEDB_PORT"@) ==> c.port == 3329
            &&& args.len() == 0 ==> !c.backup_enabled
        }),
{
    lemma_number(env, "DOC_CACHE_TTL_SECS"@, n, 300);
    lemma_number(env, "REQUEST_CACHE_TTL_SECS"@, n, 300);
    lemma_number(env, "MICROSERVICEDB_BACKUP_INTERVAL_MINS"@, n, 30);
    lemma_number(env, "MICROSERVICEDB_AUTOINDEX_THRESHOLD"@, n, 50);
    lemma_number(env, "MICROSERVICEDB_AUTOINDEX_WINDOW_SECS"@, n, 600);
    lemma_number(env, "MICROSERVICEDB_AUTOINDEX_DROP_IDLE_SECS"@, n, 86400);
    if n <= 65535 {
        lemma_decimal_round_trip(n as nat, 65535);
    }
}

/// A server without settings and arguments is set up, and so is one whose
/// numbers read as numbers; a number that does not, a port that is none and a
/// pause of no minutes are refused, and so is a backup without a directory.
#[verifier::rlimit(40)]
pub proof fn lemma_settings_are_accepted(
    args: Seq<Seq<char>>,
    env: Seq<(Seq<char>, Seq<char>)>,
    a: u64,
    b: u64,
    mins: u64,
    port: u64,
)
    ensures
        args.len() == 0 && (is_missing(env, "DOC_CACHE_TTL_SECS"@) || holds_number(
            env,
            "DOC_CACHE_TTL_SECS"@,
            a,
        )) && (is_missing(env, "REQUEST_CACHE_TTL_SECS"@) || holds_number(
            env,
            "REQUEST_CACHE_TTL_SECS"@,
            b,
        )) && (is_missing(env, "MICROSERVICEDB_BACKUP_INTERVAL_MINS"@) || (mins > 0 && holds_number(
            env,
            "MICROSERVICEDB_BACKUP_INTERVAL_MINS"@,
            mins,
        ))) && (is_missing(env, "MICROSERVICEDB_PORT"@) || (port <= 65535 && holds_number(
            env,
            "MICROSERVICEDB_PORT"@,
            port,
        ))) ==> config_of(args, env) is Ok,
        (setting(env, "DOC_CACHE_TTL_SECS"@) matches Some(s) && decimal(s, u64::MAX as nat) is None)
            ==> config_of(args, env) is Err,
        (setting(env, "REQUEST_CACHE_TTL_SECS"@) matches Some(s) && decimal(s, u64::MAX as nat) is None)
            ==> config_of(args, env) is Err,
        (setting(env, "MICROSERVICEDB_BACKUP_INTERVAL_MINS"@) matches Some(s) && decimal(
            s,
            u64::MAX as nat,
        ) is None) ==> config_of(args, env) is Err,
        holds_number(env, "MICROSERVICEDB_BACKUP_INTERVAL_MINS"@, 0) ==> config_of(args, env) is Err,
        args.len() == 0 && (setting(env, "MICROSERVICEDB_PORT"@) matches Some(s) && decimal(s, 65535) is None)
            ==> config_of(args, env) is Err,
        args == seq!["--backup"@] && is_missing(env, "MICROSERVICEDB_BACKUP_DIR"@) ==> config_of(
            args,
            env,
        ) is Err,
        cli_of(args) is Err ==> config_of(args, env) is Err,
{
    lemma_number(env, "DOC_CACHE_TTL_SECS"@, a, 300);
    lemma_number(env, "REQUEST_CACHE_TTL_SECS"@, b, 300);
    lemma_number(env, "MICROSERVICEDB_BACKUP_INTERVAL_MINS"@, mins, 30);
    lemma_number(env, "MICROSERVICEDB_BACKUP_INTERVAL_MINS"@, 0, 30);
    if port <= 65535 {
        lemma_decimal_round_trip(port as nat, 65535);
    }
    if args == seq!["--backup"@] {
        lemma_options();
        assert(args.skip(1) == Seq::<Seq<char>>::empty());
        let cli = CliArgs { port: None, backup_enabled: false };
        assert(cli_from(args, cli) == cli_from(args.skip(1), CliArgs { backup_enabled: true, ..cli }));
    }
}

proof fn lemma_options()
    ensures
        "--port"@ != "--backup"@,
        begins_with("--port"@, "--"@),
        begins_with("--backup"@, "--"@),
        "--"@.len() == 2 && "--"@[0] == '-' && "--"@[1] == '-',
{
    reveal_strlit("--port");
    reveal_strlit("--backup");
    reveal_strlit("--");
    assert("--port"@.len() == 6);
    assert("--backup"@.len() == 8);
    assert("--port"@.subrange(0, 2) == "--"@);
    assert("--backup"@.subrange(0, 2) == "--"@);
}

/// Whether a text could be the name of an option.
pub open spec fn looks_like_option(s: Seq<char>) -> bool {
    s.len() >= 2 && s[0] == '-' && s[1] == '-'
}

proof fn lemma_option_shape(s: Seq<char>)
    ensures
        begins_with(s, "--"@) == looks_like_option(s),
{
    lemma_options();
    if looks_like_option(s) {
        assert(s.subrange(0, 2) == "--"@);
    }
    if begins_with(s, "--"@) {
        assert(s.subrange(0, 2)[0] == s[0] && s.subrange(0, 2)[1] == s[1]);
    }
}

/// Arguments are taken one after the other: a port behind its option or, where
/// there is none yet, on its own; backups switched on by their option, or
/// switched by the word behind it; and everything else is refused.
#[verifier::rlimit(40)]
pub proof fn lemma_arguments_are_taken(cli: CliArgs, p: u16, word: Seq<char>, rest: Seq<Seq<char>>)
    ensures
        cli_from(Seq::empty(), cli) == Ok::<CliArgs, Seq<char>>(cli),
        cli_from(seq!["--port"@, decimal_text(p as nat)] + rest, cli) == cli_from(
            rest,
            CliArgs { port: Some(p), backup_enabled: cli.backup_enabled },
        ),
        cli.port is None ==> cli_from(seq![decimal_text(p as nat)] + rest, cli) == cli_from(
            rest,
            CliArgs { port: Some(p), backup_enabled: cli.backup_enabled },
        ),
        cli.port is Some ==> cli_from(seq![decimal_text(p as nat)] + rest, cli) is Err,
        rest.len() == 0 || looks_like_option(rest[0]) ==> cli_from(seq!["--backup"@] + rest, cli)
            == cli_from(rest, CliArgs { port: cli.port, backup_enabled: true }),
        cli_from(seq!["--backup"@, "true"@] + rest, cli) == cli_from(
            rest,
            CliArgs { port: cli.port, backup_enabled: true },
        ),
        cli_from(seq!["--backup"@, "false"@] + rest, cli) == cli_from(
            rest,
            CliArgs { port: cli.port, backup_enabled: false },
        ),
        looks_like_option(word) && word != "--port"@ && word != "--backup"@ ==> cli_from(
            seq![word] + rest,
            cli,
        ) is Err,
        !looks_like_option(word) && decimal(word, 65535) is None ==> cli_from(seq![word] + rest, cli) is Err,
        decimal(word, 65535) is None ==> cli_from(seq!["--port"@, word] + rest, cli) is Err,
        cli_from(seq!["--port"@], cli) is Err,
        cli_of(rest) == cli_from(rest, CliArgs { port: None, backup_enabled: false }),
{
    let d = decimal_text(p as nat);
    lemma_options();
    lemma_option_shape(word);
    lemma_option_shape(d);
    lemma_decimal_round_trip(p as nat, 65535);
    lemma_decimal_digits(p as nat);
    assert('0' <= d[0] <= '9');
    assert(!looks_like_option(d));
    reveal_strlit("true");
    reveal_strlit("false");
    lemma_option_shape("true"@);
    lemma_option_shape("false"@);
    lemma_words(Seq::empty());
    let none = Seq::<char>::empty();
    assert("true"@.len() == 4 && "false"@.len() == 5);
    assert("true"@[0] == 't' && "true"@[3] == 'e' && "false"@[0] == 'f' && "false"@[4] == 'e');
    lemma_trimming_is_exact(none, "true"@, none);
    lemma_trimming_is_exact(none, "false"@, none);
    assert(none + "true"@ + none == "true"@ && none + "false"@ + none == "false"@);
    assert(ascii_lowered("true"@) == "true"@);
    assert(ascii_lowered("false"@) == "false"@);
    let a = seq!["--port"@, d] + rest;
    assert(a[0] == "--port"@ && a[1] == d && a.skip(2) == rest);
    let b = seq![d] + rest;
    assert(b[0] == d && b.skip(1) == rest);
    let c = seq!["--backup"@] + rest;
    assert(c[0] == "--backup"@ && c.skip(1) == rest);
    if rest.len() > 0 {
        assert(c[1] == rest[0]);
        lemma_option_shape(rest[0]);
    }
    let e = seq!["--backup"@, "true"@] + rest;
    assert(e[0] == "--backup"@ && e[1] == "true"@ && e.skip(2) == rest);
    let f = seq!["--backup"@, "false"@] + rest;
    assert(f[0] == "--backup"@ && f[1] == "false"@ && f.skip(2) == rest);
    let g = seq![word] + rest;
    assert(g[0] == word);
    let h = seq!["--port"@, word] + rest;
    assert(h[0] == "--port"@ && h[1] == word);
}

/// The words for yes and no, and no others.
pub proof fn lemma_words(s: Seq<char>)
    ensures
        word_bool("true"@) == Some(true) && word_bool("1"@) == Some(true) && word_bool("yes"@) == Some(true)
            && word_bool("on"@) == Some(true),
        word_bool("false"@) == Some(false) && word_bool("0"@) == Some(false) && word_bool("no"@) == Some(
            false,
        ) && word_bool("off"@) == Some(false),
        s != "true"@ && s != "1"@ && s != "yes"@ && s != "on"@ && s != "false"@ && s != "0"@ && s != "no"@
            && s != "off"@ ==> word_bool(s) is None,
{
    reveal_strlit("true");
    reveal_strlit("1");
    reveal_strlit("yes");
    reveal_strlit("on");
    reveal_strlit("false");
    reveal_strlit("0");
    reveal_strlit("no");
    reveal_strlit("off");
    assert("true"@.len() == 4);
    assert("1"@.len() == 1);
    assert("yes"@.len() == 3);
    assert("on"@.len() == 2);
    assert("false"@.len() == 5);
    assert("0"@.len() == 1);
    assert("no"@.len() == 2);
    assert("off"@.len() == 3);
    assert("0"@[0] == '0');
    assert("1"@[0] == '1');
    assert("no"@[0] == 'n');
    assert("off"@[0] == 'o');
    assert("on"@[0] == 'o');
    assert("yes"@[0] == 'y');
}

/// The files for TLS are used where both are named and there; where neither is
/// named there is no TLS; all else is refused.
pub proof fn lemma_files_are_both_there(
    env: Seq<(Seq<char>, Seq<char>)>,
    cert: Seq<char>,
    key: Seq<char>,
    cert_exists: bool,
    key_exists: bool,
)
    ensures
        ({
            let c = setting(env, "MICROSERVICEDB_SSL_CERT"@);
            let k = setting(env, "MICROSERVICEDB_SSL_KEY"@);
            let r = tls_of(env, cert_exists, key_exists);
            &&& c == Some(cert) && k == Some(key) && cert_exists && key_exists ==> r == Ok::<
                Option<(Seq<char>, Seq<char>)>,
                Seq<char>,
            >(Some((cert, key)))
            &&& c is None && k is None ==> r == Ok::<Option<(Seq<char>, Seq<char>)>, Seq<char>>(None)
            &&& c is Some && k is None ==> r is Err
            &&& c is None && k is Some ==> r is Err
            &&& c is Some && k is Some && (!cert_exists || !key_exists) ==> r is Err
        }),
{
}

/// The levels from the most important one down.
pub open spec fn levels() -> Seq<LogLevel> {
    seq![LogLevel::Error, LogLevel::Warn, LogLevel::Info, LogLevel::Debug, LogLevel::Trace]
}

/// A record is written where its level is at least as important as the one that
/// is set; errors and warnings go to the error output; and a level is set by its
/// name in small letters.
pub proof fn lemma_levels_are_ordered(i: int, j: int)
    requires
        0 <= i < 5,
        0 <= j < 5,
    ensures
        is_written(levels()[i], levels()[j]) <==> i <= j,
        is_serious(levels()[i]) <==> i < 2,
        level_named(ascii_lowered(level_text(levels()[i]))) == Some(levels()[i]),
        level_of(None) == LogLevel::Info,
{
    reveal_strlit("error");
    reveal_strlit("warn");
    reveal_strlit("warning");
    reveal_strlit("info");
    reveal_strlit("debug");
    reveal_strlit("trace");
    assert("error"@.len() == 5);
    assert("warn"@.len() == 4);
    assert("warning"@.len() == 7);
    assert("info"@.len() == 4);
    assert("debug"@.len() == 5);
    assert("trace"@.len() == 5);
    assert("debug"@[0] == 'd');
    assert("error"@[0] == 'e');
    assert("info"@[0] == 'i');
    assert("trace"@[0] == 't');
    assert("warn"@[0] == 'w');
    reveal_strlit("ERROR");
    reveal_strlit("WARN");
    reveal_strlit("INFO");
    reveal_strlit("DEBUG");
    reveal_strlit("TRACE");
    assert("ERROR"@.len() == 5);
    assert("WARN"@.len() == 4);
    assert("INFO"@.len() == 4);
    assert("DEBUG"@.len() == 5);
    assert("TRACE"@.len() == 5);
    assert("DEBUG"@[0] == 'D');
    assert("ERROR"@[0] == 'E');
    assert("INFO"@[0] == 'I');
    assert("TRACE"@[0] == 'T');
    assert("WARN"@[0] == 'W');
    assert(ascii_lowered("ERROR"@) == "error"@);
    assert(ascii_lowered("WARN"@) == "warn"@);
    assert(ascii_lowered("INFO"@) == "info"@);
    assert(ascii_lowered("DEBUG"@) == "debug"@);
    assert(ascii_lowered("TRACE"@) == "trace"@);
}

/// A record says when it was made, how important it is and what it says, and
/// carries its fields, which go before these, or its one value.
pub proof fn lemma_records_say(
    ts: u64,
    level: LogLevel,
    message: Seq<char>,
    o: Seq<(Seq<char>, JsonView)>,
    v: JsonView,
    k: Seq<char>,
)
    requires
        keys_differ(o),
        !(v is Object),
    ensures
        ({
            let r = record_value(ts, level, message, None);
            &&& field(r, "ts"@) == Some(integer(ts as int))
            &&& field(r, "level"@) == Some(JsonView::String(level_text(level)))
            &&& field(r, "msg"@) == Some(JsonView::String(message))
            &&& k != "ts"@ && k != "level"@ && k != "msg"@ ==> field(r, k) is None
            &&& field(record_value(ts, level, message, Some(JsonView::Object(o))), k) == (match lookup(o, k) {
                Some(x) => Some(x),
                None => field(r, k),
            })
            &&& field(record_value(ts, level, message, Some(v)), k) == (if k == "data"@ {
                Some(v)
            } else {
                field(r, k)
            })
        }),
{
    reveal_strlit("ts");
    reveal_strlit("level");
    reveal_strlit("msg");
    reveal_strlit("data");
    assert("ts"@.len() == 2);
    assert("level"@.len() == 5);
    assert("msg"@.len() == 3);
    assert("data"@.len() == 4);
    let head = record_value(ts, level, message, None)->Object_0;
    lemma_key_at_is(head, "ts"@, 0);
    lemma_key_at_is(head, "level"@, 1);
    lemma_key_at_is(head, "msg"@, 2);
    if k != "ts"@ && k != "level"@ && k != "msg"@ {
        lemma_key_at_is(head, k, 3);
    }
    lemma_overlaid(head, o, k);
    lemma_lookup_with_key(head, "data"@, v, k);
}

/// A text that is cut short starts as the text does, and says so; a short one
/// stays.
pub proof fn lemma_texts_are_cut(s: Seq<char>, max: nat)
    ensures
        s.len() <= max ==> cut(s, max) == s,
        s.len() > max ==> cut(s, max).take(max as int) == s.take(max as int) && cut(s, max).skip(
            max as int,
        ) == "...[truncated]"@,
{
    if s.len() > max {
        assert(cut(s, max).take(max as int) == s.take(max as int));
        assert(cut(s, max).skip(max as int) == "...[truncated]"@);
    }
}

/// A file name holds none of the characters that have a meaning in paths and
/// patterns, and no control character.
pub proof fn lemma_file_names_are_plain(name: Seq<char>, i: int)
    requires
        0 <= i < file_component(name).len(),
    ensures
        ({
            let c = file_component(name)[i];
            c != '/' && c != '\\' && c != ':' && c != '*' && c != '?' && c != '"' && c != '<' && c != '>' && c
                != '|' && c as u32 > 0x1f && !(0x7f <= c as u32 <= 0x9f)
        }),
{
    lemma_file_component_safe(name);
}

/// Whether a character can stand in a file name everywhere.
pub open spec fn is_ordinary(c: char) -> bool {
    c != '/' && c != '\\' && c != ':' && c != '*' && c != '?' && c != '"' && c != '<' && c != '>' && c != '|'
        && c as u32 > 0x1f && !(0x7f <= c as u32 <= 0x9f)
}

proof fn lemma_stripping_keeps(s: Seq<char>, drop: spec_fn(char) -> bool)
    requires
        s.len() > 0,
        !drop(s[0]),
        !drop(s.last()),
    ensures
        strip_front(s, drop) == s,
        strip_back(s, drop) == s,
{
}

/// A name that starts and ends in ordinary characters, neither white nor a dot,
/// stands for itself, but for an underscore in place of each character that
/// cannot stand in a file name.
pub proof fn lemma_file_names_are_kept(name: Seq<char>, i: int)
    requires
        name.len() > 0,
        is_ordinary(name[0]) && !is_white(name[0]) && name[0] != '.',
        is_ordinary(name.last()) && !is_white(name.last()) && name.last() != '.',
        0 <= i < name.len(),
    ensures
        file_component(name).len() == name.len(),
        file_component(name)[i] == (if is_ordinary(name[i]) {
            name[i]
        } else {
            '_'
        }),
{
    let s = name.map_values(|c: char| safe_char(c));
    assert(s[0] == name[0] && s.last() == name.last());
    lemma_stripping_keeps(s, |c: char| is_white(c));
    assert(trimmed(s) == s);
    lemma_stripping_keeps(s, |c: char| crate::backup::is_dot(c));
    assert(undotted(s) == s);
}

proof fn lemma_two_digits(n: nat)
    requires
        n < 100,
    ensures
        two_digits(n).len() == 2,
        digits_value(two_digits(n)) == n,
{
    let s = two_digits(n);
    lemma_digit(n / 10);
    lemma_digit(n % 10);
    reveal_with_fuel(digits_value, 3);
    assert(s.drop_last().drop_last().len() == 0);
}

proof fn lemma_digit(n: nat)
    requires
        n < 10,
    ensures
        digit_char(n) as nat == '0' as nat + n,
{
}

proof fn lemma_four_digits(n: nat)
    requires
        n <= 9999,
    ensures
        four_digits(n).len() == 4,
        digits_value(four_digits(n)) == n,
{
    reveal_strlit("000");
    reveal_strlit("00");
    reveal_strlit("0");
    let s = four_digits(n);
    reveal_with_fuel(decimal_text, 4);
    lemma_digit(n % 10);
    lemma_digit((n / 10) % 10);
    lemma_digit((n / 100) % 10);
    lemma_digit(n / 1000);
    assert((n / 10) / 10 == n / 100 && (n / 100) / 10 == n / 1000);
    let t = seq![
        digit_char(n / 1000),
        digit_char((n / 100) % 10),
        digit_char((n / 10) % 10),
        digit_char(n % 10),
    ];
    assert(s == t);
    let t3 = t.drop_last();
    let t2 = t3.drop_last();
    let t1 = t2.drop_last();
    reveal_with_fuel(digits_value, 2);
    assert(t1.drop_last().len() == 0);
    assert(digits_value(t1) == n / 1000);
    assert(t2.last() == digit_char((n / 100) % 10));
    assert(digits_value(t2) == n / 100);
    assert(t3.last() == digit_char((n / 10) % 10));
    assert(digits_value(t3) == n / 10);
}

/// The directory of a backup tells its day, and the time of a backup its hour,
/// minute and second: the digits of each, with hyphens between them.
pub proof fn lemma_times_are_told(t: LocalTime)
    requires
        t.valid(),
        0 <= t.year <= 9999,
    ensures
        ({
            let d = date_text(t);
            let c = clock_text(t);
            &&& d.len() == 10 && d[4] == '-' && d[7] == '-'
            &&& digits_value(d.subrange(0, 4)) == t.year
            &&& digits_value(d.subrange(5, 7)) == t.month
            &&& digits_value(d.subrange(8, 10)) == t.day
            &&& c.len() == 8 && c[2] == '-' && c[5] == '-'
            &&& digits_value(c.subrange(0, 2)) == t.hour
            &&& digits_value(c.subrange(3, 5)) == t.minute
            &&& digits_value(c.subrange(6, 8)) == t.second
        }),
{
    reveal_strlit("-");
    lemma_four_digits(t.year as nat);
    lemma_two_digits(t.month as nat);
    lemma_two_digits(t.day as nat);
    lemma_two_digits(t.hour as nat);
    lemma_two_digits(t.minute as nat);
    lemma_two_digits(t.second as nat);
    let d = date_text(t);
    let c = clock_text(t);
    assert(d.subrange(0, 4) == four_digits(t.year as nat));
    assert(d.subrange(5, 7) == two_digits(t.month as nat));
    assert(d.subrange(8, 10) == two_digits(t.day as nat));
    assert(c.subrange(0, 2) == two_digits(t.hour as nat));
    assert(c.subrange(3, 5) == two_digits(t.minute as nat));
    assert(c.subrange(6, 8) == two_digits(t.second as nat));
}

/// The half hour of a backup is named by the minute that it starts with.
pub proof fn lemma_slots_are_half_hours(t: LocalTime)
    requires
        t.valid(),
    ensures
        ({
            let s = slot_name(t);
            let start = digits_value(s.skip(7));
            &&& s.len() == 9 && s.take(7) == "backup_"@
            &&& start == 0 || start == 30
            &&& start <= t.minute < start + 30
        }),
{
    reveal_strlit("backup_");
    reveal_strlit("backup_00");
    reveal_strlit("backup_30");
    let s = slot_name(t);
    assert(s.take(7) == "backup_"@);
    reveal_with_fuel(digits_value, 3);
    let e = s.skip(7);
    assert(e.len() == 2 && e.drop_last().len() == 1 && e.drop_last().drop_last().len() == 0);
    assert(e.last() == '0');
    assert(e.drop_last().last() == (if t.minute < 30 {
        '0'
    } else {
        '3'
    }));
}

/// With another interval than the usual one a backup waits that many minutes.
pub proof fn lemma_intervals_are_kept(mins: u64, now: LocalTime)
    requires
        mins != 30,
        mins <= 0x400_0000_0000_0000,
    ensures
        delay_of(mins, now) == (60 * mins as int, 0int),
{
}

/// A backup holds the name of its database, when it was made, and every
/// collection with its documents.
pub proof fn lemma_backups_hold_everything(
    name: Seq<char>,
    timestamp: Seq<char>,
    db: Seq<(Seq<char>, Seq<JsonView>)>,
    i: int,
)
    requires
        0 <= i < db.len(),
        forall|a: int, b: int| 0 <= a < b < db.len() ==> (#[trigger] db[a]).0 != (#[trigger] db[b]).0,
    ensures
        field(snapshot(name, timestamp, db), "database_name"@) == Some(JsonView::String(name)),
        field(snapshot(name, timestamp, db), "created_at_local"@) == Some(JsonView::String(timestamp)),
        field(snapshot(name, timestamp, db), "collections"@) matches Some(c) && field(c, db[i].0) == Some(
            JsonView::Array(db[i].1),
        ),
{
    reveal_strlit("database_name");
    reveal_strlit("created_at_local");
    reveal_strlit("collections");
    assert("database_name"@.len() == 13);
    assert("created_at_local"@.len() == 16);
    assert("collections"@.len() == 11);
    let o = snapshot(name, timestamp, db)->Object_0;
    lemma_key_at_is(o, "database_name"@, 0);
    lemma_key_at_is(o, "created_at_local"@, 1);
    lemma_key_at_is(o, "collections"@, 2);
    lemma_stored(db, i);
}

proof fn lemma_stored(db: Seq<(Seq<char>, Seq<JsonView>)>, i: int)
    requires
        0 <= i < db.len(),
        forall|a: int, b: int| 0 <= a < b < db.len() ==> (#[trigger] db[a]).0 != (#[trigger] db[b]).0,
    ensures
        lookup(stored(db), db[i].0) == Some(JsonView::Array(db[i].1)),
    decreases db.len(),
{
    let d = db.drop_last();
    let last = db.last();
    lemma_lookup_with_key(stored(d), last.0, JsonView::Array(last.1), db[i].0);
    if i < d.len() {
        assert forall|a: int, b: int| 0 <= a < b < d.len() implies (#[trigger] d[a]).0 != (#[trigger] d[b]).0 by {
            assert(db[a].0 != db[b].0);
        }
        lemma_stored(d, i);
        assert(db[i].0 != db[db.len() - 1].0);
    }
}

/// A backup is packed by 7-Zip under the one name, or where that could not be
/// started under the other; where 7-Zip cannot be started, or fails, the backup
/// is packed by gzip.
pub proof fn lemma_archives_are_made(o: RunOutput, second: bool)
    ensures
        next_archive_step(false, None) == (ArchiveStepView::Run { executable: "7za"@ }),
        next_archive_step(true, None) is Gzip,
        o.success ==> next_archive_step(second, Some(o)) is Written,
        !o.success ==> next_archive_step(second, Some(o)) is Gzip,
{
}

/// As many backups failed as have an error, and each error is told with the name
/// of its database.
pub proof fn lemma_failures_are_told(
    outcomes: Seq<(Seq<char>, Option<Seq<char>>)>,
    name: Seq<char>,
    e: Seq<char>,
)
    ensures
        failures(outcomes) == outcomes.filter(
            |x: (Seq<char>, Option<Seq<char>>)| x.1 is Some,
        ).len(),
        failure_list(outcomes.push((name, None))) == failure_list(outcomes),
        failures(outcomes) == 0 ==> failure_list(outcomes.push((name, Some(e)))) == name + ": "@ + e,
        failures(outcomes) > 0 ==> failure_list(outcomes.push((name, Some(e)))) == failure_list(outcomes)
            + " | "@ + (name + ": "@ + e),
    decreases outcomes.len(),
{
    reveal(Seq::filter);
    assert(outcomes.push((name, None)).drop_last() == outcomes);
    assert(outcomes.push((name, Some(e))).drop_last() == outcomes);
    if outcomes.len() > 0 {
        lemma_failures_are_told(outcomes.drop_last(), name, e);
    }
}

/// As many names were cleared as the batches add up to; a batch that failed
/// counts for none.
pub proof fn lemma_cleared_names_add_up(removed: Seq<i64>, n: i64)
    ensures
        cleared_total(Seq::<i64>::empty()) == 0,
        n >= 0 && cleared_total(removed) + n <= u64::MAX ==> cleared_total(removed.push(n)) == cleared_total(
            removed,
        ) + n,
        n < 0 ==> cleared_total(removed.push(n)) == cleared_total(removed),
        cleared_total(removed.push(n)) >= cleared_total(removed),
    decreases removed.len(),
{
    assert(removed.push(n).drop_last() == removed);
    lemma_cleared_bound(removed);
}

proof fn lemma_cleared_bound(removed: Seq<i64>)
    ensures
        cleared_total(removed) <= u64::MAX,
    decreases removed.len(),
{
    if removed.len() > 0 {
        lemma_cleared_bound(removed.drop_last());
    }
}

} // verus!
