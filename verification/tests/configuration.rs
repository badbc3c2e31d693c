use microservicedb::config::{
    cache_url, configured_level, env_path, env_string, is_error_output, level_from_name, load_app_config, log_enabled,
    log_line, now_ms, parse_bool, parse_cli_args, parse_log_level, parse_port, parse_u64, preview_json, preview_text,
    required_uri, tls_config, validate_tls_paths, LogLevel,
};
use microservicedb::json::Json;
use microservicedb::wire::{from_text, to_text};

fn j(s: &str) -> Json {
    from_text(s).expect("json")
}

fn env(pairs: &[(&str, &str)]) -> Vec<(String, String)> {
    pairs.iter().map(|(k, v)| (k.to_string(), v.to_string())).collect()
}

fn args(a: &[&str]) -> Vec<String> {
    a.iter().map(|s| s.to_string()).collect()
}

#[test]
fn levels_are_named_in_any_letters() {
    assert_eq!(parse_log_level(" WARNING "), Some(LogLevel::Warn));
    assert_eq!(parse_log_level("Error"), Some(LogLevel::Error));
    assert_eq!(parse_log_level("info"), Some(LogLevel::Info));
    assert_eq!(parse_log_level("DEBUG"), Some(LogLevel::Debug));
    assert_eq!(parse_log_level("trace"), Some(LogLevel::Trace));
    assert_eq!(parse_log_level("verbose"), None);
    assert_eq!(level_from_name("warn"), Some(LogLevel::Warn));
    assert_eq!(level_from_name("WARN"), None);
    assert_eq!(configured_level(None), LogLevel::Info);
    assert_eq!(configured_level(Some("nope")), LogLevel::Info);
    assert_eq!(configured_level(Some("debug")), LogLevel::Debug);
}

#[test]
fn records_up_to_the_level_are_written() {
    assert!(log_enabled(LogLevel::Error, LogLevel::Info));
    assert!(log_enabled(LogLevel::Info, LogLevel::Info));
    assert!(!log_enabled(LogLevel::Debug, LogLevel::Info));
    assert!(is_error_output(LogLevel::Warn));
    assert!(!is_error_output(LogLevel::Info));
}

#[test]
fn a_record_is_a_line_of_json() {
    assert_eq!(
        log_line(LogLevel::Info, 7, LogLevel::Info, "m", Some(j("{\"a\":1,\"msg\":\"x\"}"))).as_deref(),
        Some("{\"ts\":7,\"level\":\"INFO\",\"msg\":\"x\",\"a\":1}")
    );
    assert_eq!(
        log_line(LogLevel::Trace, 7, LogLevel::Debug, "m", Some(j("[1]"))).as_deref(),
        Some("{\"ts\":7,\"level\":\"DEBUG\",\"msg\":\"m\",\"data\":[1]}")
    );
    assert_eq!(
        log_line(LogLevel::Error, 0, LogLevel::Error, "m", None).as_deref(),
        Some("{\"ts\":0,\"level\":\"ERROR\",\"msg\":\"m\"}")
    );
    assert_eq!(log_line(LogLevel::Info, 7, LogLevel::Debug, "m", None), None);
    assert_eq!(to_text(&preview_json(&j("{\"a\":1}"), 3)), "\"{\\\"a...[truncated]\"");
    assert_eq!(to_text(&preview_text("abc", 3)), "\"abc\"");
}

#[test]
fn settings_are_trimmed_and_empty_ones_are_missing() {
    let e = env(&[("A", "  x "), ("B", "   "), ("A", "y")]);
    assert_eq!(env_string(&e, "A").as_deref(), Some("x"));
    assert_eq!(env_string(&e, "B"), None);
    assert_eq!(env_path(&e, "C"), None);
}

#[test]
fn numbers_and_words_are_read() {
    assert_eq!(parse_port("3329", "p"), Ok(3329));
    assert_eq!(parse_port("65536", "P"), Err("Invalid port in P: '65536'".to_string()));
    assert_eq!(parse_u64("18446744073709551615", "p"), Ok(u64::MAX));
    assert_eq!(parse_u64("-1", "U"), Err("Invalid u64 in U: '-1'".to_string()));
    for w in ["true", "1", "YES", " on "] {
        assert_eq!(parse_bool(w, "b"), Ok(true));
    }
    for w in ["false", "0", "No", "off"] {
        assert_eq!(parse_bool(w, "b"), Ok(false));
    }
    assert_eq!(parse_bool("maybe", "B"), Err("Invalid boolean in B: 'maybe'".to_string()));
}

#[test]
fn the_command_line_is_read() {
    let c = parse_cli_args(&args(&["--port", "80", "--backup"])).unwrap();
    assert_eq!((c.port, c.backup_enabled), (Some(80), true));
    let c = parse_cli_args(&args(&["81", "--backup", "no"])).unwrap();
    assert_eq!((c.port, c.backup_enabled), (Some(81), false));
    let c = parse_cli_args(&args(&["--backup", "--port", "82"])).unwrap();
    assert_eq!((c.port, c.backup_enabled), (Some(82), true));
    assert_eq!(parse_cli_args(&args(&["--port"])), Err("Missing value for --port".to_string()));
    assert_eq!(parse_cli_args(&args(&["--port", "x"])), Err("Invalid port in --port: 'x'".to_string()));
    assert_eq!(parse_cli_args(&args(&["x"])), Err("Invalid port in CLI argument: 'x'".to_string()));
    assert_eq!(parse_cli_args(&args(&["--backup", "x"])), Err("Invalid boolean in --backup: 'x'".to_string()));
    assert_eq!(parse_cli_args(&args(&["1", "2"])), Err("Unknown CLI argument: '2'".to_string()));
    assert_eq!(parse_cli_args(&args(&["--nope"])), Err("Unknown CLI argument: '--nope'".to_string()));
}

#[test]
fn the_set_up_has_defaults() {
    let c = load_app_config(&args(&[]), &env(&[])).unwrap();
    assert_eq!(c.port, 3329);
    assert_eq!(c.mongodb_uri, None);
    assert_eq!(c.request_cache_ttl_secs, 300);
    assert_eq!(c.doc_cache_ttl_secs, 300);
    assert_eq!(c.backup_interval_mins, Some(30));
    assert_eq!(c.autoindex_threshold, 50);
    assert_eq!(c.autoindex_window_secs, 600);
    assert_eq!(c.autoindex_drop_idle_secs, 86400);
    assert!(!c.backup_enabled);
}

#[test]
fn the_set_up_follows_command_line_and_settings() {
    let e = env(&[
        ("MICROSERVICEDB_PORT", "4000"),
        ("REQUEST_CACHE_TTL_SECS", "9999"),
        ("DOC_CACHE_TTL_SECS", "9999"),
        ("MICROSERVICEDB_AUTOINDEX_THRESHOLD", "x"),
        ("MICROSERVICEDB_AUTOINDEX_WINDOW_SECS", "5"),
        ("MICROSERVICEDB_BACKUP_DIR", "/b"),
        ("MICROSERVICEDB_MONGODB_URI", " mongodb://h "),
    ]);
    let c = load_app_config(&args(&["--backup"]), &e).unwrap();
    assert_eq!(c.port, 4000);
    assert_eq!(c.request_cache_ttl_secs, 300);
    assert_eq!(c.doc_cache_ttl_secs, 9999);
    assert_eq!(c.autoindex_threshold, 50);
    assert_eq!(c.autoindex_window_secs, 5);
    assert_eq!(c.backup_dir.as_deref(), Some("/b"));
    assert_eq!(required_uri(&c), Ok("mongodb://h"));
    assert_eq!(cache_url(&c), None);
    let c = load_app_config(&args(&["5000"]), &e).unwrap();
    assert_eq!(c.port, 5000);
}

#[test]
fn a_set_up_that_cannot_be_is_refused() {
    let bad = |e: &[(&str, &str)], a: &[&str]| load_app_config(&args(a), &env(e)).map(|c| c.port).unwrap_err();
    assert_eq!(bad(&[("MICROSERVICEDB_PORT", "x")], &[]), "Invalid port in MICROSERVICEDB_PORT: 'x'");
    assert_eq!(bad(&[("REQUEST_CACHE_TTL_SECS", "x")], &[]), "Invalid u64 in REQUEST_CACHE_TTL_SECS: 'x'");
    assert_eq!(bad(&[("DOC_CACHE_TTL_SECS", "x")], &[]), "Invalid u64 in DOC_CACHE_TTL_SECS: 'x'");
    assert_eq!(
        bad(&[("MICROSERVICEDB_BACKUP_INTERVAL_MINS", "0")], &[]),
        "MICROSERVICEDB_BACKUP_INTERVAL_MINS must be greater than 0"
    );
    assert_eq!(
        bad(&[], &["--backup"]),
        "--backup requires MICROSERVICEDB_BACKUP_DIR environment variable to be set"
    );
    let c = load_app_config(&args(&[]), &env(&[])).unwrap();
    assert_eq!(
        required_uri(&c),
        Err("MICROSERVICEDB_MONGODB_URI environment variable is required".to_string())
    );
}

#[test]
fn tls_needs_both_files() {
    let both = env(&[("MICROSERVICEDB_SSL_CERT", "c"), ("MICROSERVICEDB_SSL_KEY", "k")]);
    assert_eq!(tls_config(&both, true, true), Ok(Some(("c".to_string(), "k".to_string()))));
    assert_eq!(tls_config(&both, false, true), Err("SSL certificate not found at 'c'".to_string()));
    assert_eq!(tls_config(&both, true, false), Err("SSL key not found at 'k'".to_string()));
    assert_eq!(tls_config(&env(&[]), true, true), Ok(None));
    assert_eq!(
        tls_config(&env(&[("MICROSERVICEDB_SSL_KEY", "k")]), true, true),
        Err("MICROSERVICEDB_SSL_CERT and MICROSERVICEDB_SSL_KEY must be set together".to_string())
    );
    assert!(validate_tls_paths("c".to_string(), "k".to_string(), true, true).is_ok());
}

#[test]
fn milliseconds_keep_their_low_bits() {
    assert_eq!(now_ms(Some(1720000000000)), 1720000000000);
    assert_eq!(now_ms(Some(u128::from(u64::MAX) + 6)), 5);
    assert_eq!(now_ms(None), 0);
}
