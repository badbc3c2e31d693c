use microservicedb::backup::{
    archive_args, archive_step, backup_delay, backup_files, backup_layout, backup_payload, cycle_summary, file_failure,
    first_archive_step, gzip_archive, gzip_result, run_failure, sanitize_file_component, time_until_next_backup_slot,
    ArchiveStep, FileFault, LocalTime, RunOutput,
};
use microservicedb::database::Database;
use microservicedb::wire::from_text;
use std::io::Read;

fn at(minute: u32, second: u32, nanosecond: u32) -> LocalTime {
    LocalTime { year: 2024, month: 7, day: 3, hour: 9, minute, second, nanosecond }
}

#[test]
fn file_names_are_safe() {
    assert_eq!(sanitize_file_component("ventas"), "ventas");
    assert_eq!(sanitize_file_component("a/b\\c:d*e?f\"g<h>i|j"), "a_b_c_d_e_f_g_h_i_j");
    assert_eq!(sanitize_file_component("  ..x.. "), "x");
    assert_eq!(sanitize_file_component("..."), "database");
    assert_eq!(sanitize_file_component(""), "database");
    assert_eq!(sanitize_file_component("a\u{7}\u{85}b"), "a__b");
    for n in 0..0x11_0000u32 {
        if let Some(c) = char::from_u32(n) {
            if c.is_control() {
                assert_eq!(sanitize_file_component(&format!("a{c}b")), "a_b");
            }
        }
    }
}

#[test]
fn a_backup_goes_to_its_half_hour() {
    let l = backup_layout(at(29, 5, 0));
    assert_eq!((l.date_dir.as_str(), l.hour_dir.as_str(), l.slot_dir.as_str()), ("2024-07-03", "09", "backup_00"));
    assert_eq!(l.timestamp, "2024-07-03_09-29-05");
    assert_eq!(backup_layout(at(30, 0, 0)).slot_dir, "backup_30");
    let far = LocalTime { year: 12345, ..at(0, 0, 0) };
    assert_eq!(backup_layout(far).date_dir, "+12345-07-03");
    let old = LocalTime { year: -7, ..at(0, 0, 0) };
    assert_eq!(backup_layout(old).date_dir, "-0007-07-03");
    let small = LocalTime { year: 33, ..at(0, 0, 0) };
    assert_eq!(backup_layout(small).date_dir, "0033-07-03");
}

#[test]
fn texts_of_times_are_those_of_chrono() {
    for (y, m, d, h, mi, s) in [(2024, 7, 3, 9, 5, 6), (1, 1, 1, 0, 0, 0), (9999, 12, 31, 23, 59, 59), (10000, 2, 2, 2, 2, 2), (-45, 3, 3, 3, 3, 3)] {
        let t = chrono::NaiveDate::from_ymd_opt(y, m, d).unwrap().and_hms_opt(h, mi, s).unwrap();
        let l = backup_layout(LocalTime { year: y, month: m, day: d, hour: h, minute: mi, second: s, nanosecond: 0 });
        assert_eq!(l.date_dir, t.format("%Y-%m-%d").to_string());
        assert_eq!(l.hour_dir, t.format("%H").to_string());
        assert_eq!(l.timestamp, t.format("%Y-%m-%d_%H-%M-%S").to_string());
    }
}

#[test]
fn the_wait_ends_on_the_half_hour() {
    assert_eq!(time_until_next_backup_slot(at(0, 0, 0)), (1800, 0));
    assert_eq!(time_until_next_backup_slot(at(29, 59, 0)), (1, 0));
    assert_eq!(time_until_next_backup_slot(at(30, 0, 0)), (1800, 0));
    assert_eq!(time_until_next_backup_slot(at(59, 59, 1)), (1, 999_999_999));
    for minute in 0..60 {
        let (secs, nanos) = time_until_next_backup_slot(at(minute, 17, 0));
        assert_eq!((u64::from(minute) * 60 + 17 + secs) % 1800, 0);
        assert_eq!(nanos, 0);
    }
}

#[test]
fn another_interval_is_waited_out() {
    assert_eq!(backup_delay(30, at(10, 0, 0)), (1200, 0));
    assert_eq!(backup_delay(5, at(10, 0, 0)), (300, 0));
    assert_eq!(backup_delay(u64::MAX, at(10, 0, 0)), (u64::MAX, 0));
}

#[test]
fn a_backup_holds_all_collections() {
    let mut db = Database::empty();
    db.set_docs("c", vec![from_text("{\"a\":1}").unwrap()]);
    db.set_docs("d", Vec::new());
    assert_eq!(
        backup_payload("db", "now", &db),
        "{\"database_name\":\"db\",\"created_at_local\":\"now\",\"collections\":{\"c\":[{\"a\":1}],\"d\":[]}}"
    );
    let f = backup_files("a/b");
    assert_eq!((f.temp_json.as_str(), f.archive_7z.as_str(), f.archive_gz.as_str()), ("a_b.json", "a_b.7z", "a_b.json.gz"));
    assert_eq!(
        archive_args("x.7z", "x.json"),
        vec!["a", "-t7z", "-mx=9", "-m0=LZMA2", "-mfb=273", "-md=64m", "-ms=on", "x.7z", "x.json"]
    );
}

#[test]
fn packing_tries_both_programs_and_falls_back() {
    let out = |success: bool, stderr: &str, stdout: &str| {
        Some(RunOutput { success, stderr: stderr.as_bytes().to_vec(), stdout: stdout.as_bytes().to_vec() })
    };
    assert!(matches!(first_archive_step(), ArchiveStep::Run { executable } if executable == "7z"));
    assert!(matches!(archive_step(false, &None), ArchiveStep::Run { executable } if executable == "7za"));
    assert!(matches!(archive_step(true, &None), ArchiveStep::Gzip { reason } if reason == "7z executable not found in PATH"));
    assert!(matches!(archive_step(false, &out(true, "", "")), ArchiveStep::Written));
    assert!(matches!(archive_step(false, &out(false, " bad \n", "x")), ArchiveStep::Gzip { reason } if reason == "7z failed: bad"));
    assert!(matches!(archive_step(true, &out(false, " \n", " out ")), ArchiveStep::Gzip { reason } if reason == "7za failed: out"));
    let lossy = Some(RunOutput { success: false, stderr: vec![0xff, b'a'], stdout: Vec::new() });
    assert!(matches!(archive_step(false, &lossy), ArchiveStep::Gzip { reason } if reason == "7z failed: \u{fffd}a"));
    assert_eq!(run_failure("7z", "", ""), "7z failed: ");
}

#[test]
fn what_is_packed_is_unpacked() {
    let payload = b"{\"a\":[1,2,3]}".repeat(500);
    let packed = gzip_archive(&payload).unwrap();
    assert!(packed.len() < payload.len());
    let mut back = Vec::new();
    flate2::read::GzDecoder::new(&packed[..]).read_to_end(&mut back).unwrap();
    assert_eq!(back, payload);
    assert_eq!(gzip_archive(&payload).unwrap(), packed);
    assert!(gzip_archive(&Vec::new()).is_ok());
}

#[test]
fn errors_of_packing_are_told() {
    assert_eq!(gzip_result(Err((false, "e".to_string()))), Err("Failed to write gzip payload: e".to_string()));
    assert_eq!(gzip_result(Err((true, "e".to_string()))), Err("Failed to finalize gzip payload: e".to_string()));
    assert_eq!(gzip_result(Ok(vec![1])), Ok(vec![1]));
    assert_eq!(file_failure(FileFault::Directory, "/d", "e"), "Failed to create backup directory '/d': e");
    assert_eq!(file_failure(FileFault::TempFile, "/d", "e"), "Failed to write backup temp file '/d': e");
    assert_eq!(file_failure(FileFault::GzipArchive, "/d", "e"), "Failed to write gzip archive '/d': e");
}

#[test]
fn a_cycle_tells_of_all_failures() {
    let s = cycle_summary(&vec![
        ("a".to_string(), Some("x".to_string())),
        ("b".to_string(), None),
        ("c".to_string(), Some("y".to_string())),
    ]);
    assert_eq!((s.completed, s.failed), (1, 2));
    assert_eq!(s.result, Err("Backup cycle completed with failures: a: x | c: y".to_string()));
    let ok = cycle_summary(&vec![("b".to_string(), None)]);
    assert_eq!((ok.completed, ok.failed, ok.result), (1, 0, Ok(())));
}
