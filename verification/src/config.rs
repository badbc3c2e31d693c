//! How the server is set up, and what it logs.

use crate::json::{entry_views, Json, JsonView, Numeral};
use crate::object::{nat_value, own_view, set_entry, string_view, text_value, text_view, with_key};
use crate::request::{no_entries, put};
use crate::text::{
    ascii_lowered, begins_with, cat3, decimal, lowercase, owned, parse_decimal, same_text, starts_with,
    texts, to_ascii_lower, to_lowercase, trim, trimmed, truncate_string, cut,
};
use crate::wire::{text_of, to_text};
use vstd::prelude::*;

verus! {

broadcast use crate::json::group_json_views;

pub const DEFAULT_PORT: u16 = 3329;

pub const DEFAULT_REQUEST_CACHE_TTL_SECS: u64 = 300;

pub const DEFAULT_DOC_CACHE_TTL_SECS: u64 = 300;

pub const DEFAULT_AUTOINDEX_THRESHOLD: u64 = 50;

pub const DEFAULT_AUTOINDEX_WINDOW_SECS: u64 = 600;

pub const DEFAULT_AUTOINDEX_DROP_IDLE_SECS: u64 = 86400;

pub const DEFAULT_BACKUP_INTERVAL_MINS: u64 = 30;

/// How important a log record is.
#[derive(Debug, Clone, Copy, PartialEq, Eq, Structural)]
pub enum LogLevel {
    Error,
    Warn,
    Info,
    Debug,
    Trace,
}

/// Levels from the most important one down.
pub open spec fn rank(l: LogLevel) -> int {
    match l {
        LogLevel::Error => 1,
        LogLevel::Warn => 2,
        LogLevel::Info => 3,
        LogLevel::Debug => 4,
        LogLevel::Trace => 5,
    }
}

/// The level that has a name in small letters.
pub open spec fn level_named(name: Seq<char>) -> Option<LogLevel> {
    if name == "error"@ {
        Some(LogLevel::Error)
    } else if name == "warn"@ || name == "warning"@ {
        Some(LogLevel::Warn)
    } else if name == "info"@ {
        Some(LogLevel::Info)
    } else if name == "debug"@ {
        Some(LogLevel::Debug)
    } else if name == "trace"@ {
        Some(LogLevel::Trace)
    } else {
        None
    }
}

/// The level that has a name in small letters.
pub fn level_from_name(name: &str) -> (r: Option<LogLevel>)
    ensures
        r == level_named(name@),
{
    if same_text(name, "error") {
        Some(LogLevel::Error)
    } else if same_text(name, "warn") || same_text(name, "warning") {
        Some(LogLevel::Warn)
    } else if same_text(name, "info") {
        Some(LogLevel::Info)
    } else if same_text(name, "debug") {
        Some(LogLevel::Debug)
    } else if same_text(name, "trace") {
        Some(LogLevel::Trace)
    } else {
        None
    }
}

/// The level that a text names, whatever its letters and the white space around
/// it.
pub fn parse_log_level(raw: &str) -> (r: Option<LogLevel>)
    ensures
        r == level_named(lowercase(trimmed(raw@))),
{
    level_from_name(to_lowercase(trim(raw).as_str()).as_str())
}

/// The level that a setting names, or the usual one.
pub open spec fn level_of(setting: Option<Seq<char>>) -> LogLevel {
    match setting {
        Some(s) => match level_named(lowercase(trimmed(s))) {
            Some(l) => l,
            None => LogLevel::Info,
        },
        None => LogLevel::Info,
    }
}

/// The level up to which records are written, by the setting for it.
pub fn configured_level(setting: Option<&str>) -> (r: LogLevel)
    ensures
        r == level_of(text_view(setting)),
{
    match setting {
        Some(s) => match parse_log_level(s) {
            Some(l) => l,
            None => LogLevel::Info,
        },
        None => LogLevel::Info,
    }
}

fn level_rank(l: LogLevel) -> (r: u8)
    ensures
        r == rank(l),
{
    match l {
        LogLevel::Error => 1,
        LogLevel::Warn => 2,
        LogLevel::Info => 3,
        LogLevel::Debug => 4,
        LogLevel::Trace => 5,
    }
}

/// Whether a record is written where records up to a level are.
pub open spec fn is_written(level: LogLevel, configured: LogLevel) -> bool {
    rank(level) <= rank(configured)
}

/// Whether a record goes to the error output.
pub open spec fn is_serious(level: LogLevel) -> bool {
    rank(level) <= 2
}

/// Whether a record is written where records up to a level are.
pub fn log_enabled(level: LogLevel, configured: LogLevel) -> (r: bool)
    ensures
        r == is_written(level, configured),
{
    level_rank(level) <= level_rank(configured)
}

pub open spec fn level_text(l: LogLevel) -> Seq<char> {
    match l {
        LogLevel::Error => "ERROR"@,
        LogLevel::Warn => "WARN"@,
        LogLevel::Info => "INFO"@,
        LogLevel::Debug => "DEBUG"@,
        LogLevel::Trace => "TRACE"@,
    }
}

fn level_name(l: LogLevel) -> (r: &'static str)
    ensures
        r@ == level_text(l),
{
    match l {
        LogLevel::Error => "ERROR",
        LogLevel::Warn => "WARN",
        LogLevel::Info => "INFO",
        LogLevel::Debug => "DEBUG",
        LogLevel::Trace => "TRACE",
    }
}

/// A log record: its time, level and message, and its fields, which may
/// override those.
pub open spec fn record_value(
    ts: u64,
    level: LogLevel,
    message: Seq<char>,
    fields: Option<JsonView>,
) -> JsonView {
    let head = seq![
        ("ts"@, JsonView::Number(Numeral::PosInt(ts))),
        ("level"@, JsonView::String(level_text(level))),
        ("msg"@, JsonView::String(message)),
    ];
    match fields {
        Some(JsonView::Object(o)) => JsonView::Object(crate::collection::overlaid(head, o)),
        Some(v) => JsonView::Object(with_key(head, "data"@, v)),
        None => JsonView::Object(head),
    }
}

/// A log record as a line of text, where records up to `configured` are
/// written.
pub fn log_line(
    configured: LogLevel,
    ts: u64,
    level: LogLevel,
    message: &str,
    fields: Option<Json>,
) -> (r: Option<String>)
    ensures
        string_view(r) == (if is_written(level, configured) {
            Some(text_of(record_value(ts, level, message@, own_view(fields))))
        } else {
            None
        }),
{
    if !log_enabled(level, configured) {
        return None;
    }
    let mut o = no_entries();
    put(&mut o, "ts", nat_value(ts));
    put(&mut o, "level", text_value(level_name(level)));
    put(&mut o, "msg", text_value(message));
    let ghost head = seq![
        ("ts"@, JsonView::Number(Numeral::PosInt(ts))),
        ("level"@, JsonView::String(level_text(level))),
        ("msg"@, JsonView::String(message@)),
    ];
    assert(entry_views(o@) == head);
    match &fields {
        Some(Json::Object(f)) => {
            let ghost e = entry_views(f@);
            let mut i: usize = 0;
            assert(e.take(0) == Seq::<(Seq<char>, JsonView)>::empty());
            while i < f.len()
                invariant
                    i <= f@.len(),
                    e == entry_views(f@),
                    entry_views(o@) == crate::collection::overlaid(head, e.take(i as int)),
                decreases f@.len() - i,
            {
                assert(e.take(i + 1).drop_last() == e.take(i as int));
                assert(e.take(i + 1).last() == e[i as int]);
                set_entry(&mut o, f[i].0.as_str(), f[i].1.clone());
                i = i + 1;
            }
            assert(e.take(i as int) == e);
        },
        Some(v) => {
            set_entry(&mut o, "data", v.clone());
        },
        None => {},
    }
    Some(to_text(&Json::Object(o)))
}

/// Whether a record goes to the error output.
pub fn is_error_output(level: LogLevel) -> (r: bool)
    ensures
        r == is_serious(level),
{
    level_rank(level) <= 2
}

/// The start of the text of a value.
pub fn preview_json(value: &Json, max_chars: usize) -> (r: Json)
    ensures
        r@ == JsonView::String(cut(text_of(value@), max_chars as nat)),
{
    Json::String(truncate_string(to_text(value), max_chars))
}

/// The start of a text.
pub fn preview_text(value: &str, max_chars: usize) -> (r: Json)
    ensures
        r@ == JsonView::String(cut(value@, max_chars as nat)),
{
    Json::String(truncate_string(owned(value), max_chars))
}

/// Milliseconds since the epoch, of which 64 bits are kept; zero for a time
/// before it.
pub fn now_ms(since_epoch: Option<u128>) -> (r: u64)
    ensures
        r == match since_epoch {
            Some(m) => m % 0x1_0000_0000_0000_0000,
            None => 0,
        },
{
    match since_epoch {
        Some(m) => (m % 0x1_0000_0000_0000_0000) as u64,
        None => 0,
    }
}

/// The settings: names and values.
pub open spec fn setting_views(env: Seq<(String, String)>) -> Seq<(Seq<char>, Seq<char>)> {
    env.map_values(|e: (String, String)| (e.0@, e.1@))
}

/// The value of a setting, without white space around it; an empty one counts
/// as missing.
pub open spec fn setting(env: Seq<(Seq<char>, Seq<char>)>, name: Seq<char>) -> Option<Seq<char>>
    decreases env.len(),
{
    if env.len() == 0 {
        None
    } else if env[0].0 == name {
        if trimmed(env[0].1).len() > 0 {
            Some(trimmed(env[0].1))
        } else {
            None
        }
    } else {
        setting(env.drop_first(), name)
    }
}

fn is_empty(s: &str) -> (r: bool)
    ensures
        r == (s@.len() == 0),
{
    crate::text::chars_of(s).len() == 0
}

/// The value of a setting.
pub fn env_string(env: &Vec<(String, String)>, name: &str) -> (r: Option<String>)
    ensures
        string_view(r) == setting(setting_views(env@), name@),
{
    let ghost all = setting_views(env@);
    let mut i: usize = 0;
    assert(all.skip(0) == all);
    while i < env.len()
        invariant
            i <= env@.len(),
            all == setting_views(env@),
            setting(all, name@) == setting(all.skip(i as int), name@),
        decreases env@.len() - i,
    {
        assert(all.skip(i as int)[0] == all[i as int]);
        assert(all.skip(i as int).drop_first() == all.skip(i + 1));
        if same_text(env[i].0.as_str(), name) {
            let v = trim(env[i].1.as_str());
            return if is_empty(v.as_str()) {
                None
            } else {
                Some(v)
            };
        }
        i = i + 1;
    }
    None
}

/// The path that a setting holds.
pub fn env_path(env: &Vec<(String, String)>, name: &str) -> (r: Option<String>)
    ensures
        string_view(r) == setting(setting_views(env@), name@),
{
    env_string(env, name)
}

/// The error that a text cannot be read as something: what it should be, where
/// it stands, and the text.
pub open spec fn invalid(what: Seq<char>, source: Seq<char>, raw: Seq<char>) -> Seq<char> {
    what + source + (": '"@ + raw + "'"@)
}

fn invalid_text(what: &str, source: &str, raw: &str) -> (r: String)
    ensures
        r@ == invalid(what@, source@, raw@),
{
    cat3(what, source, cat3(": '", raw, "'").as_str())
}

/// The port that a text stands for.
pub fn parse_port(raw: &str, source: &str) -> (r: Result<u16, String>)
    ensures
        match r {
            Ok(p) => decimal(raw@, 65535) == Some(p as nat),
            Err(e) => decimal(raw@, 65535) is None && e@ == invalid(
                "Invalid port in "@,
                source@,
                raw@,
            ),
        },
{
    match parse_decimal(raw, 65535) {
        Some(n) => Ok(n as u16),
        None => Err(invalid_text("Invalid port in ", source, raw)),
    }
}

/// The natural number that a text stands for.
pub fn parse_u64(raw: &str, source: &str) -> (r: Result<u64, String>)
    ensures
        match r {
            Ok(n) => decimal(raw@, u64::MAX as nat) == Some(n as nat),
            Err(e) => decimal(raw@, u64::MAX as nat) is None && e@ == invalid(
                "Invalid u64 in "@,
                source@,
                raw@,
            ),
        },
{
    match parse_decimal(raw, u64::MAX) {
        Some(n) => Ok(n),
        None => Err(invalid_text("Invalid u64 in ", source, raw)),
    }
}

/// What a word says for yes or no.
pub open spec fn word_bool(s: Seq<char>) -> Option<bool> {
    if s == "true"@ || s == "1"@ || s == "yes"@ || s == "on"@ {
        Some(true)
    } else if s == "false"@ || s == "0"@ || s == "no"@ || s == "off"@ {
        Some(false)
    } else {
        None
    }
}

/// Whether a text says yes or no.
pub fn parse_bool(raw: &str, source: &str) -> (r: Result<bool, String>)
    ensures
        match r {
            Ok(b) => word_bool(ascii_lowered(trimmed(raw@))) == Some(b),
            Err(e) => word_bool(ascii_lowered(trimmed(raw@))) is None && e@ == invalid(
                "Invalid boolean in "@,
                source@,
                raw@,
            ),
        },
{
    let s = to_ascii_lower(trim(raw).as_str());
    let t = s.as_str();
    if same_text(t, "true") || same_text(t, "1") || same_text(t, "yes") || same_text(t, "on") {
        Ok(true)
    } else if same_text(t, "false") || same_text(t, "0") || same_text(t, "no") || same_text(
        t,
        "off",
    ) {
        Ok(false)
    } else {
        Err(invalid_text("Invalid boolean in ", source, raw))
    }
}

/// What the command line asks for.
#[derive(Debug, Clone, Copy, PartialEq, Eq, Structural)]
pub struct CliArgs {
    pub port: Option<u16>,
    pub backup_enabled: bool,
}

/// What command line arguments ask for, after what was asked for before them.
pub open spec fn cli_from(args: Seq<Seq<char>>, cli: CliArgs) -> Result<CliArgs, Seq<char>>
    decreases args.len(),
{
    if args.len() == 0 {
        Ok(cli)
    } else {
        let a = args[0];
        if a == "--port"@ {
            if args.len() < 2 {
                Err("Missing value for --port"@)
            } else {
                match decimal(args[1], 65535) {
                    Some(p) => cli_from(args.skip(2), CliArgs { port: Some(p as u16), ..cli }),
                    None => Err(invalid("Invalid port in "@, "--port"@, args[1])),
                }
            }
        } else if a == "--backup"@ {
            if args.len() >= 2 && !begins_with(args[1], "--"@) {
                match word_bool(ascii_lowered(trimmed(args[1]))) {
                    Some(b) => cli_from(args.skip(2), CliArgs { backup_enabled: b, ..cli }),
                    None => Err(invalid("Invalid boolean in "@, "--backup"@, args[1])),
                }
            } else {
                cli_from(args.skip(1), CliArgs { backup_enabled: true, ..cli })
            }
        } else if !begins_with(a, "--"@) && cli.port is None {
            match decimal(a, 65535) {
                Some(p) => cli_from(args.skip(1), CliArgs { port: Some(p as u16), ..cli }),
                None => Err(invalid("Invalid port in "@, "CLI argument"@, a)),
            }
        } else {
            Err("Unknown CLI argument: '"@ + a + "'"@)
        }
    }
}

/// What command line arguments ask for where nothing else says.
pub open spec fn cli_of(args: Seq<Seq<char>>) -> Result<CliArgs, Seq<char>> {
    cli_from(args, CliArgs { port: None, backup_enabled: false })
}

/// What the command line asks for.
pub fn parse_cli_args(args: &Vec<String>) -> (r: Result<CliArgs, String>)
    ensures
        match r {
            Ok(c) => cli_of(texts(args@)) == Ok::<CliArgs, Seq<char>>(c),
            Err(e) => cli_of(texts(args@)) == Err::<CliArgs, Seq<char>>(e@),
        },
{
    let ghost all = texts(args@);
    let mut cli = CliArgs { port: None, backup_enabled: false };
    let mut i: usize = 0;
    assert(all.skip(0) == all);
    while i < args.len()
        invariant
            i <= args@.len(),
            all == texts(args@),
            cli_of(all) == cli_from(all.skip(i as int), cli),
        decreases args@.len() - i,
    {
        let ghost rest = all.skip(i as int);
        assert(rest[0] == all[i as int]);
        assert(rest.skip(1) == all.skip(i + 1));
        let a = args[i].as_str();
        if same_text(a, "--port") {
            if args.len() - i < 2 {
                return Err(owned("Missing value for --port"));
            }
            assert(rest[1] == all[i + 1]);
            assert(rest.skip(2) == all.skip(i + 2));
            match parse_port(args[i + 1].as_str(), "--port") {
                Ok(p) => {
                    cli = CliArgs { port: Some(p), backup_enabled: cli.backup_enabled };
                },
                Err(e) => {
                    return Err(e);
                },
            }
            i = i + 2;
        } else if same_text(a, "--backup") {
            if args.len() - i >= 2 && !starts_with(args[i + 1].as_str(), "--") {
                assert(rest[1] == all[i + 1]);
                assert(rest.skip(2) == all.skip(i + 2));
                match parse_bool(args[i + 1].as_str(), "--backup") {
                    Ok(b) => {
                        cli = CliArgs { port: cli.port, backup_enabled: b };
                    },
                    Err(e) => {
                        return Err(e);
                    },
                }
                i = i + 2;
            } else {
                if args.len() - i >= 2 {
                    assert(rest[1] == all[i + 1]);
                }
                cli = CliArgs { port: cli.port, backup_enabled: true };
                i = i + 1;
            }
        } else if !starts_with(a, "--") && cli.port.is_none() {
            match parse_port(a, "CLI argument") {
                Ok(p) => {
                    cli = CliArgs { port: Some(p), backup_enabled: cli.backup_enabled };
                },
                Err(e) => {
                    return Err(e);
                },
            }
            i = i + 1;
        } else {
            return Err(cat3("Unknown CLI argument: '", a, "'"));
        }
    }
    assert(all.skip(i as int).len() == 0);
    Ok(cli)
}

/// How the server is set up.
#[derive(Debug)]
pub struct AppConfig {
    pub port: u16,
    pub mongodb_uri: Option<String>,
    pub dragonfly_url: Option<String>,
    pub backup_enabled: bool,
    pub request_cache_ttl_secs: u64,
    pub doc_cache_ttl_secs: u64,
    pub backup_dir: Option<String>,
    pub backup_interval_mins: Option<u64>,
    pub autoindex_threshold: u64,
    pub autoindex_window_secs: u64,
    pub autoindex_drop_idle_secs: u64,
}

/// What a set-up is.
#[verifier::ext_equal]
pub struct ConfigView {
    pub port: u16,
    pub mongodb_uri: Option<Seq<char>>,
    pub dragonfly_url: Option<Seq<char>>,
    pub backup_enabled: bool,
    pub request_cache_ttl_secs: u64,
    pub doc_cache_ttl_secs: u64,
    pub backup_dir: Option<Seq<char>>,
    pub backup_interval_mins: Option<u64>,
    pub autoindex_threshold: u64,
    pub autoindex_window_secs: u64,
    pub autoindex_drop_idle_secs: u64,
}

impl View for AppConfig {
    type V = ConfigView;

    open spec fn view(&self) -> ConfigView {
        ConfigView {
            port: self.port,
            mongodb_uri: string_view(self.mongodb_uri),
            dragonfly_url: string_view(self.dragonfly_url),
            backup_enabled: self.backup_enabled,
            request_cache_ttl_secs: self.request_cache_ttl_secs,
            doc_cache_ttl_secs: self.doc_cache_ttl_secs,
            backup_dir: string_view(self.backup_dir),
            backup_interval_mins: self.backup_interval_mins,
            autoindex_threshold: self.autoindex_threshold,
            autoindex_window_secs: self.autoindex_window_secs,
            autoindex_drop_idle_secs: self.autoindex_drop_idle_secs,
        }
    }
}

/// The number that a setting holds, or a default where it is missing.
pub open spec fn number_setting(
    env: Seq<(Seq<char>, Seq<char>)>,
    name: Seq<char>,
    default: u64,
) -> Result<u64, Seq<char>> {
    match setting(env, name) {
        Some(s) => match decimal(s, u64::MAX as nat) {
            Some(n) => Ok(n as u64),
            None => Err(invalid("Invalid u64 in "@, name, s)),
        },
        None => Ok(default),
    }
}

/// The number that a setting holds, or a default where it is missing or none.
pub open spec fn lenient_setting(
    env: Seq<(Seq<char>, Seq<char>)>,
    name: Seq<char>,
    default: u64,
) -> u64 {
    match number_setting(env, name, default) {
        Ok(n) => n,
        Err(_) => default,
    }
}

/// The port: that of the command line, else that of the settings, else the
/// default.
pub open spec fn port_setting(cli: CliArgs, env: Seq<(Seq<char>, Seq<char>)>) -> Result<
    u16,
    Seq<char>,
> {
    match cli.port {
        Some(p) => Ok(p),
        None => match setting(env, "MICROSERVICEDB_PORT"@) {
            Some(s) => match decimal(s, 65535) {
                Some(n) => Ok(n as u16),
                None => Err(invalid("Invalid port in "@, "MICROSERVICEDB_PORT"@, s)),
            },
            None => Ok(DEFAULT_PORT),
        },
    }
}

/// The minutes between backups; none at all is an error.
pub open spec fn interval_setting(env: Seq<(Seq<char>, Seq<char>)>) -> Result<u64, Seq<char>> {
    match number_setting(
        env,
        "MICROSERVICEDB_BACKUP_INTERVAL_MINS"@,
        DEFAULT_BACKUP_INTERVAL_MINS,
    ) {
        Ok(n) => if n == 0 {
            Err("MICROSERVICEDB_BACKUP_INTERVAL_MINS must be greater than 0"@)
        } else {
            Ok(n)
        },
        Err(e) => Err(e),
    }
}

/// The smaller of two numbers.
pub open spec fn smaller(a: u64, b: u64) -> u64 {
    if a <= b {
        a
    } else {
        b
    }
}

/// How the command line and the settings set the server up, or the first thing
/// that is wrong with them.
pub open spec fn config_of(
    args: Seq<Seq<char>>,
    env: Seq<(Seq<char>, Seq<char>)>,
) -> Result<ConfigView, Seq<char>> {
    let request_ttl = number_setting(
        env,
        "REQUEST_CACHE_TTL_SECS"@,
        DEFAULT_REQUEST_CACHE_TTL_SECS,
    );
    let doc_ttl = number_setting(env, "DOC_CACHE_TTL_SECS"@, DEFAULT_DOC_CACHE_TTL_SECS);
    let backup_dir = setting(env, "MICROSERVICEDB_BACKUP_DIR"@);
    match cli_of(args) {
        Ok(cli) => match port_setting(cli, env) {
            Ok(port) => if request_ttl is Err {
                Err(request_ttl->Err_0)
            } else if doc_ttl is Err {
                Err(doc_ttl->Err_0)
            } else if interval_setting(env) is Err {
                Err(interval_setting(env)->Err_0)
            } else if cli.backup_enabled && backup_dir is None {
                Err(
                    "--backup requires MICROSERVICEDB_BACKUP_DIR environment variable to be set"@,
                )
            } else {
                Ok(
                    ConfigView {
                        port,
                        mongodb_uri: setting(env, "MICROSERVICEDB_MONGODB_URI"@),
                        dragonfly_url: setting(env, "MICROSERVICEDB_DRAGONFLY_URL"@),
                        backup_enabled: cli.backup_enabled,
                        request_cache_ttl_secs: smaller(
                            request_ttl->Ok_0,
                            DEFAULT_REQUEST_CACHE_TTL_SECS,
                        ),
                        doc_cache_ttl_secs: doc_ttl->Ok_0,
                        backup_dir,
                        backup_interval_mins: Some(interval_setting(env)->Ok_0),
                        autoindex_threshold: lenient_setting(
                            env,
                            "MICROSERVICEDB_AUTOINDEX_THRESHOLD"@,
                            DEFAULT_AUTOINDEX_THRESHOLD,
                        ),
                        autoindex_window_secs: lenient_setting(
                            env,
                            "MICROSERVICEDB_AUTOINDEX_WINDOW_SECS"@,
                            DEFAULT_AUTOINDEX_WINDOW_SECS,
                        ),
                        autoindex_drop_idle_secs: lenient_setting(
                            env,
                            "MICROSERVICEDB_AUTOINDEX_DROP_IDLE_SECS"@,
                            DEFAULT_AUTOINDEX_DROP_IDLE_SECS,
                        ),
                    },
                )
            },
            Err(e) => Err(e),
        },
        Err(e) => Err(e),
    }
}

fn env_number(env: &Vec<(String, String)>, name: &str, default: u64) -> (r: Result<u64, String>)
    ensures
        match r {
            Ok(n) => number_setting(setting_views(env@), name@, default) == Ok::<u64, Seq<char>>(n),
            Err(e) => number_setting(setting_views(env@), name@, default) == Err::<u64, Seq<char>>(
                e@,
            ),
        },
{
    match env_string(env, name) {
        Some(s) => parse_u64(s.as_str(), name),
        None => Ok(default),
    }
}

fn env_number_or(env: &Vec<(String, String)>, name: &str, default: u64) -> (r: u64)
    ensures
        r == lenient_setting(setting_views(env@), name@, default),
{
    match env_number(env, name, default) {
        Ok(n) => n,
        Err(_) => default,
    }
}

fn env_port(cli: CliArgs, env: &Vec<(String, String)>) -> (r: Result<u16, String>)
    ensures
        match r {
            Ok(p) => port_setting(cli, setting_views(env@)) == Ok::<u16, Seq<char>>(p),
            Err(e) => port_setting(cli, setting_views(env@)) == Err::<u16, Seq<char>>(e@),
        },
{
    match cli.port {
        Some(p) => Ok(p),
        None => match env_string(env, "MICROSERVICEDB_PORT") {
            Some(s) => parse_port(s.as_str(), "MICROSERVICEDB_PORT"),
            None => Ok(DEFAULT_PORT),
        },
    }
}

fn env_interval(env: &Vec<(String, String)>) -> (r: Result<u64, String>)
    ensures
        match r {
            Ok(n) => interval_setting(setting_views(env@)) == Ok::<u64, Seq<char>>(n),
            Err(e) => interval_setting(setting_views(env@)) == Err::<u64, Seq<char>>(e@),
        },
{
    match env_number(
        env,
        "MICROSERVICEDB_BACKUP_INTERVAL_MINS",
        DEFAULT_BACKUP_INTERVAL_MINS,
    ) {
        Ok(n) => if n == 0 {
            Err(owned("MICROSERVICEDB_BACKUP_INTERVAL_MINS must be greater than 0"))
        } else {
            Ok(n)
        },
        Err(e) => Err(e),
    }
}

/// How the command line and the settings set the server up.
pub fn load_app_config(args: &Vec<String>, env: &Vec<(String, String)>) -> (r: Result<
    AppConfig,
    String,
>)
    ensures
        match r {
            Ok(c) => config_of(texts(args@), setting_views(env@)) == Ok::<ConfigView, Seq<char>>(
                c@,
            ),
            Err(e) => config_of(texts(args@), setting_views(env@)) == Err::<ConfigView, Seq<char>>(
                e@,
            ),
        },
{
    let cli = match parse_cli_args(args) {
        Ok(c) => c,
        Err(e) => {
            return Err(e);
        },
    };
    let port = match env_port(cli, env) {
        Ok(p) => p,
        Err(e) => {
            return Err(e);
        },
    };
    let request_ttl = match env_number(
        env,
        "REQUEST_CACHE_TTL_SECS",
        DEFAULT_REQUEST_CACHE_TTL_SECS,
    ) {
        Ok(n) => n,
        Err(e) => {
            return Err(e);
        },
    };
    let doc_ttl = match env_number(env, "DOC_CACHE_TTL_SECS", DEFAULT_DOC_CACHE_TTL_SECS) {
        Ok(n) => n,
        Err(e) => {
            return Err(e);
        },
    };
    let interval = match env_interval(env) {
        Ok(n) => n,
        Err(e) => {
            return Err(e);
        },
    };
    let backup_dir = env_path(env, "MICROSERVICEDB_BACKUP_DIR");
    if cli.backup_enabled && backup_dir.is_none() {
        return Err(
            owned("--backup requires MICROSERVICEDB_BACKUP_DIR environment variable to be set"),
        );
    }
    Ok(
        AppConfig {
            port,
            mongodb_uri: env_string(env, "MICROSERVICEDB_MONGODB_URI"),
            dragonfly_url: env_string(env, "MICROSERVICEDB_DRAGONFLY_URL"),
            backup_enabled: cli.backup_enabled,
            request_cache_ttl_secs: if request_ttl <= DEFAULT_REQUEST_CACHE_TTL_SECS {
                request_ttl
            } else {
                DEFAULT_REQUEST_CACHE_TTL_SECS
            },
            doc_cache_ttl_secs: doc_ttl,
            backup_dir,
            backup_interval_mins: Some(interval),
            autoindex_threshold: env_number_or(
                env,
                "MICROSERVICEDB_AUTOINDEX_THRESHOLD",
                DEFAULT_AUTOINDEX_THRESHOLD,
            ),
            autoindex_window_secs: env_number_or(
                env,
                "MICROSERVICEDB_AUTOINDEX_WINDOW_SECS",
                DEFAULT_AUTOINDEX_WINDOW_SECS,
            ),
            autoindex_drop_idle_secs: env_number_or(
                env,
                "MICROSERVICEDB_AUTOINDEX_DROP_IDLE_SECS",
                DEFAULT_AUTOINDEX_DROP_IDLE_SECS,
            ),
        },
    )
}

/// The pair of files for TLS, by whether they are there.
pub open spec fn tls_files(
    cert: Seq<char>,
    key: Seq<char>,
    cert_exists: bool,
    key_exists: bool,
) -> Result<Option<(Seq<char>, Seq<char>)>, Seq<char>> {
    if !cert_exists {
        Err("SSL certificate not found at '"@ + cert + "'"@)
    } else if !key_exists {
        Err("SSL key not found at '"@ + key + "'"@)
    } else {
        Ok(Some((cert, key)))
    }
}

/// The files for TLS, or the text of an error.
pub open spec fn tls_view(r: Result<Option<(String, String)>, String>) -> Result<
    Option<(Seq<char>, Seq<char>)>,
    Seq<char>,
> {
    match r {
        Ok(Some((c, k))) => Ok(Some((c@, k@))),
        Ok(None) => Ok(None),
        Err(e) => Err(e@),
    }
}

/// The pair of files for TLS, by whether they are there.
pub fn validate_tls_paths(
    cert_path: String,
    key_path: String,
    cert_exists: bool,
    key_exists: bool,
) -> (r: Result<Option<(String, String)>, String>)
    ensures
        tls_view(r) == tls_files(cert_path@, key_path@, cert_exists, key_exists),
{
    if !cert_exists {
        return Err(cat3("SSL certificate not found at '", cert_path.as_str(), "'"));
    }
    if !key_exists {
        return Err(cat3("SSL key not found at '", key_path.as_str(), "'"));
    }
    Ok(Some((cert_path, key_path)))
}

/// The files for TLS that the settings name: both, or none.
pub open spec fn tls_of(
    env: Seq<(Seq<char>, Seq<char>)>,
    cert_exists: bool,
    key_exists: bool,
) -> Result<Option<(Seq<char>, Seq<char>)>, Seq<char>> {
    match (setting(env, "MICROSERVICEDB_SSL_CERT"@), setting(env, "MICROSERVICEDB_SSL_KEY"@)) {
        (Some(c), Some(k)) => tls_files(c, k, cert_exists, key_exists),
        (None, None) => Ok(None),
        _ => Err("MICROSERVICEDB_SSL_CERT and MICROSERVICEDB_SSL_KEY must be set together"@),
    }
}

/// The files for TLS that the settings name.
pub fn tls_config(env: &Vec<(String, String)>, cert_exists: bool, key_exists: bool) -> (r: Result<
    Option<(String, String)>,
    String,
>)
    ensures
        tls_view(r) == tls_of(setting_views(env@), cert_exists, key_exists),
{
    match (env_path(env, "MICROSERVICEDB_SSL_CERT"), env_path(env, "MICROSERVICEDB_SSL_KEY")) {
        (Some(c), Some(k)) => validate_tls_paths(c, k, cert_exists, key_exists),
        (None, None) => Ok(None),
        _ => Err(
            owned("MICROSERVICEDB_SSL_CERT and MICROSERVICEDB_SSL_KEY must be set together"),
        ),
    }
}

/// The address of the database, or the error where it is missing.
pub fn required_uri(config: &AppConfig) -> (r: Result<&str, String>)
    ensures
        match r {
            Ok(u) => config@.mongodb_uri == Some(u@) && trimmed(u@).len() > 0,
            Err(e) => (config@.mongodb_uri matches Some(u) ==> trimmed(u).len() == 0) && e@
                == "MICROSERVICEDB_MONGODB_URI environment variable is required"@,
        },
{
    match &config.mongodb_uri {
        Some(u) => {
            let t = trim(u.as_str());
            if is_empty(t.as_str()) {
                Err(owned("MICROSERVICEDB_MONGODB_URI environment variable is required"))
            } else {
                Ok(u.as_str())
            }
        },
        None => Err(owned("MICROSERVICEDB_MONGODB_URI environment variable is required")),
    }
}

/// The address of the cache, if there is one.
pub fn cache_url(config: &AppConfig) -> (r: Option<&str>)
    ensures
        text_view(r) == match config@.dragonfly_url {
            Some(u) => if trimmed(u).len() > 0 {
                Some(u)
            } else {
                None
            },
            None => None,
        },
{
    match &config.dragonfly_url {
        Some(u) => {
            let t = trim(u.as_str());
            if is_empty(t.as_str()) {
                None
            } else {
                Some(u.as_str())
            }
        },
        None => None,
    }
}

/// A server that is set up keeps responses no longer than the default, backs up
/// into a directory where it backs up at all, and never without a pause.
pub proof fn lemma_config_bounds(args: Seq<Seq<char>>, env: Seq<(Seq<char>, Seq<char>)>)
    ensures
        config_of(args, env) matches Ok(c) ==> c.request_cache_ttl_secs
            <= DEFAULT_REQUEST_CACHE_TTL_SECS && (c.backup_enabled ==> c.backup_dir is Some)
            && c.backup_interval_mins is Some && c.backup_interval_mins->0 > 0,
{
}

} // verus!
