//! The command line and the pieces of output.

use litegraft::cli::format_utc;
use litegraft::cli::human_bytes;
use litegraft::cli::json_str;
use litegraft::cli::parse_args;
use litegraft::cli::plan;
use litegraft::cli::short;
use litegraft::cli::Args;
use litegraft::cli::Command;
use litegraft::cli::Plan;
use litegraft::cli::USAGE;

fn words(list: &[&str]) -> Vec<String> {
    list.iter().map(|s| s.to_string()).collect()
}

fn parse(list: &[&str]) -> Result<Args, String> {
    parse_args(&words(list))
}

#[test]
fn parses_command_db_and_flags_in_any_order() {
    let a = parse(&["snap", "app.db", "--json", "-m", "seed rows"]).unwrap();
    assert_eq!(a.command, "snap");
    assert_eq!(a.positional, vec!["app.db"]);
    assert!(a.json);
    assert_eq!(a.message, "seed rows");
    let b = parse(&["--json", "diff", "app.db", "main", "@"]).unwrap();
    assert_eq!(b.command, "diff");
    assert_eq!(b.positional, vec!["app.db", "main", "@"]);
}

#[test]
fn missing_or_malformed_flag_values_are_usage_errors() {
    assert!(parse(&["snap", "app.db", "-m"]).is_err());
    assert!(parse(&["log", "app.db", "--limit"]).is_err());
    assert!(parse(&["log", "app.db", "--limit", "ten"]).is_err());
    assert_eq!(
        parse(&["log", "app.db", "--limit", "3"]).unwrap().limit,
        Some(3)
    );
    assert_eq!(
        parse(&["log", "app.db", "--limit", "ten"]).unwrap_err(),
        "--limit: not a number: ten"
    );
    assert_eq!(
        parse(&["snap", "app.db", "--message"]).unwrap_err(),
        "--message needs a value"
    );
}

#[test]
fn every_option_lands_in_its_place() {
    let a = parse(&[
        "branch", "app.db", "--store", "s", "--at", "main", "--allow-wal", "--force", "x",
    ])
    .unwrap();
    assert_eq!(a.store, Some("s".to_string()));
    assert_eq!(a.at, Some("main".to_string()));
    assert!(a.allow_wal && a.force && !a.json);
    assert_eq!(a.positional, vec!["app.db", "x"]);
    assert_eq!(a.limit, None);
    assert_eq!(a.message, "");
}

#[test]
fn unknown_option_is_rejected_but_at_ref_is_positional() {
    assert!(parse(&["snap", "app.db", "--frobnicate"]).is_err());
    // `@` must survive as a positional ref, not be treated as a flag.
    let a = parse(&["diff", "app.db", "@"]).unwrap();
    assert_eq!(a.positional, vec!["app.db", "@"]);
}

#[test]
fn dashes_and_negative_numbers_are_no_options() {
    let a = parse(&["diff", "-", "-1"]).unwrap();
    assert_eq!(a.positional, vec!["-", "-1"]);
    assert_eq!(parse(&["diff", "-x"]).unwrap_err(), "unknown option -x");
    assert_eq!(parse(&[]).unwrap_err(), "no command given");
    assert_eq!(parse(&["--json"]).unwrap_err(), "no command given");
}

#[test]
fn help_is_signalled_with_empty_error() {
    assert!(matches!(parse(&["--help"]), Err(msg) if msg.is_empty()));
}

#[test]
fn help_lists_every_command() {
    assert!(matches!(plan(&words(&["--help"])), Plan::Usage));
    for cmd in [
        "init", "snap", "log", "branch", "checkout", "status", "diff", "tables", "verify", "gc",
    ] {
        assert!(USAGE.contains(cmd), "help missing {cmd}");
    }
}

#[test]
fn version_is_asked_for_in_two_ways() {
    assert!(matches!(plan(&words(&["--version"])), Plan::Version));
    assert!(matches!(plan(&words(&["snap", "-V", "x"])), Plan::Version));
    assert!(matches!(plan(&words(&["version"])), Plan::Version));
}

#[test]
fn unknown_command_and_missing_db_exit_2() {
    match plan(&words(&["frobnicate", "x.db"])) {
        Plan::Refuse(lines) => assert_eq!(
            lines,
            vec![
                "litegraft: unknown command \"frobnicate\"",
                "run `litegraft --help` for usage"
            ]
        ),
        _ => panic!("must be refused"),
    }
    match plan(&words(&["snap"])) {
        Plan::Refuse(lines) => assert_eq!(lines, vec!["litegraft snap: a database path is required"]),
        _ => panic!("must be refused"),
    }
    match plan(&words(&["snap", "x.db", "-m"])) {
        Plan::Refuse(lines) => assert_eq!(
            lines,
            vec![
                "litegraft: -m needs a value",
                "run `litegraft --help` for usage"
            ]
        ),
        _ => panic!("must be refused"),
    }
}

#[test]
fn store_dir_can_be_overridden() {
    match plan(&words(&["snap", "app.db"])) {
        Plan::Run {
            command,
            db,
            store_dir,
            ..
        } => {
            assert_eq!(command, Command::Snap);
            assert_eq!(db, "app.db");
            assert_eq!(store_dir, "app.db.litegraft");
        }
        _ => panic!("must run"),
    }
    match plan(&words(&["gc", "app.db", "--store", "elsewhere"])) {
        Plan::Run {
            command, store_dir, ..
        } => {
            assert_eq!(command, Command::Gc);
            assert_eq!(store_dir, "elsewhere");
        }
        _ => panic!("must run"),
    }
}

#[test]
fn json_str_escapes_quotes_backslashes_and_control_chars() {
    assert_eq!(json_str("plain"), "\"plain\"");
    assert_eq!(json_str("a\"b\\c"), "\"a\\\"b\\\\c\"");
    assert_eq!(json_str("line\nnext\ttab"), "\"line\\nnext\\ttab\"");
    assert_eq!(json_str("\u{1}"), "\"\\u0001\"");
    assert_eq!(json_str("\r\u{1f}é"), "\"\\r\\u001fé\"");
    // A text that looks like an escape is not one.
    assert_eq!(json_str("\\n\\u0041"), "\"\\\\n\\\\u0041\"");
    assert_eq!(json_str("/\u{7f}\u{1f600}"), "\"/\u{7f}\u{1f600}\"");
}

#[test]
fn human_bytes_units() {
    assert_eq!(human_bytes(0), "0 B");
    assert_eq!(human_bytes(512), "512 B");
    assert_eq!(human_bytes(4096), "4.0 KiB");
    assert_eq!(human_bytes(1_572_864), "1.5 MiB");
}

#[test]
fn human_bytes_agrees_with_floating_point() {
    let by_float = |n: u64| -> String {
        let units = ["B", "KiB", "MiB", "GiB", "TiB"];
        let mut value = n as f64;
        let mut unit = 0;
        while value >= 1024.0 && unit < 4 {
            value /= 1024.0;
            unit += 1;
        }
        if unit == 0 {
            format!("{n} B")
        } else {
            format!("{value:.1} {}", units[unit])
        }
    };
    let mut cases = vec![
        1023,
        1024,
        1075,
        1076,
        1280,
        1792,
        1_048_575,
        1_048_576,
        1_073_741_823,
        1_099_511_627_775,
        1_099_511_627_776,
        (1u64 << 53) - 1,
        (1 << 53) + 1,
        (1 << 53) + 2,
        (1 << 53) + 3,
        u64::MAX,
        u64::MAX - 1024,
        u64::MAX - 1025,
    ];
    let mut x: u64 = 88172645463325252;
    for k in 0..400 {
        x ^= x << 13;
        x ^= x >> 7;
        x ^= x << 17;
        cases.push(x >> (k % 60));
        // Exact halves of a tenth.
        cases.push((x >> (k % 50)) / 64 * 64);
    }
    for n in cases {
        assert_eq!(human_bytes(n), by_float(n), "{n}");
    }
}

#[test]
fn format_utc_known_timestamps() {
    assert_eq!(format_utc(0), "1970-01-01 00:00:00 UTC");
    assert_eq!(format_utc(951_782_400), "2000-02-29 00:00:00 UTC"); // leap day
    assert_eq!(format_utc(1_783_872_540), "2026-07-12 16:09:00 UTC");
}

#[test]
fn format_utc_edges() {
    assert_eq!(format_utc(86_399), "1970-01-01 23:59:59 UTC");
    assert_eq!(format_utc(68_169_599), "1972-02-28 23:59:59 UTC");
    assert_eq!(format_utc(68_169_600), "1972-02-29 00:00:00 UTC");
    assert_eq!(format_utc(4_107_542_399), "2100-02-28 23:59:59 UTC");
    assert_eq!(format_utc(4_107_542_400), "2100-03-01 00:00:00 UTC");
    assert_eq!(format_utc(253_402_300_799), "9999-12-31 23:59:59 UTC");
    assert_eq!(format_utc(253_402_300_800), "10000-01-01 00:00:00 UTC");
    assert_eq!(format_utc(u64::MAX), "584554051223-11-09 07:00:15 UTC");
}

#[test]
fn short_id_is_twelve_chars() {
    assert_eq!(short(&"ab".repeat(32)), "abababababab");
    assert_eq!(short("abcd"), "abcd", "short input passes through");
}
