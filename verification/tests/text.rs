use steampunk::applog::{
    export_name, export_text, filename_timestamp, filename_timestamp_at, log_line, log_path,
    start_message, timestamp, timestamp_at,
};
use steampunk::calendar::civil_from_unix;
use steampunk::clock::unix_from;
use steampunk::paths::{join_path, normalize_lexical, same_byte_path, same_path};
use steampunk::text::{
    chars_of, contains_bytes, decimal_text, ends_with, eq_ignore_ascii_case, find,
    is_before, is_whitespace, join, parse_number, parse_u32, push_padded, split_lines,
    split_words, starts_with, string_of, to_lower, trim,
};

const TEXTS: [&str; 16] = [
    "",
    " ",
    "a",
    " a b ",
    "\u{a0}a\u{2003}b\u{3000}",
    "\ta\r\nb\n\nc",
    "a\r",
    "a\r\n",
    "\n",
    "a\n\r\nb\r\r\n",
    "+5",
    "5",
    "a/b",
    "\u{e9}\u{10ffff}",
    "Z",
    "z",
];

#[test]
fn white_space_is_that_of_std() {
    for code in 0..0x110000u32 {
        if let Some(c) = char::from_u32(code) {
            assert_eq!(is_whitespace(c), c.is_whitespace(), "{code:x}");
        }
    }
}

#[test]
fn words_and_lines_are_those_of_std() {
    for text in TEXTS {
        let chars = chars_of(text);
        let words: Vec<String> = split_words(&chars).iter().map(|w| string_of(w)).collect();
        let expected: Vec<&str> = text.split_whitespace().collect();
        assert_eq!(words, expected);
        let lines: Vec<String> = split_lines(&chars).iter().map(|l| string_of(l)).collect();
        let expected: Vec<&str> = text.lines().collect();
        assert_eq!(lines, expected);
        assert_eq!(string_of(trim(&chars)), text.trim());
        assert_eq!(join(&split_words(&chars), ", "), text.split_whitespace().collect::<Vec<_>>().join(", "));
    }
}

#[test]
fn order_and_case_are_those_of_std() {
    for a in TEXTS {
        for b in TEXTS {
            let (x, y) = (chars_of(a), chars_of(b));
            assert_eq!(is_before(&x, &y), a < b);
            assert_eq!(starts_with(&x, &y), a.starts_with(b));
            assert_eq!(ends_with(&x, &y), a.ends_with(b));
            assert_eq!(eq_ignore_ascii_case(&x, &y), a.eq_ignore_ascii_case(b));
            assert_eq!(
                find(&x, &y),
                a.find(b).map(|at| a[..at].chars().count())
            );
            assert_eq!(
                contains_bytes(a.as_bytes(), b.as_bytes()),
                b.is_empty() || a.as_bytes().windows(b.len()).any(|w| w == b.as_bytes())
            );
        }
        assert_eq!(string_of(&to_lower(&chars_of(a))), a.to_ascii_lowercase());
    }
}

#[test]
fn numbers_are_read_as_std_reads_them() {
    for text in [
        "", "+", "-", "0", "+0", "-0", "007", "4294967295", "4294967296", "99999999999999999999",
        "1 ", "1_0", "a", "F", "g", "\u{661}", "++1",
    ] {
        let chars = chars_of(text);
        assert_eq!(parse_u32(&chars), text.parse::<u32>().ok(), "{text}");
        assert_eq!(
            parse_number(&chars, 16, u32::MAX as u64),
            u32::from_str_radix(text, 16).ok().map(|n| n as u64),
            "{text}"
        );
    }
}

#[test]
fn numbers_are_written_as_std_writes_them() {
    for n in [0u64, 7, 10, 99, 4294967295, u64::MAX] {
        assert_eq!(decimal_text(n), n.to_string());
    }
    for n in [0i64, 5, -5, 1970, -1970, 123456, i64::MIN, i64::MAX] {
        let mut out = String::new();
        push_padded(&mut out, n, 4);
        assert_eq!(out, format!("{n:04}"));
        let mut out = "x".to_string();
        push_padded(&mut out, n, 0);
        assert_eq!(out, format!("x{n}"));
    }
}

#[test]
fn seconds_become_dates() {
    assert_eq!(civil_from_unix(0), (1970, 1, 1, 0, 0, 0));
    assert_eq!(civil_from_unix(-1), (1969, 12, 31, 23, 59, 59));
    assert_eq!(civil_from_unix(951782400), (2000, 2, 29, 0, 0, 0));
    assert_eq!(civil_from_unix(1785885302), (2026, 8, 4, 23, 15, 2));
    assert_eq!(civil_from_unix(4107542400), (2100, 3, 1, 0, 0, 0));
    assert_eq!(civil_from_unix(-62135596801), (0, 12, 31, 23, 59, 59));
}

#[test]
fn stamps_are_written_with_all_their_digits() {
    assert_eq!(filename_timestamp_at(1785885302), "20260804-231502");
    assert_eq!(timestamp_at(1785885302), "2026-08-04 23:15:02");
    assert_eq!(timestamp_at(0), "1970-01-01 00:00:00");
}

#[test]
fn the_stamp_of_now_is_of_this_century() {
    assert_eq!(filename_timestamp().len(), 15);
    assert!(filename_timestamp().starts_with("20"));
    assert_eq!(timestamp().len(), 19);
    assert_eq!(unix_from(Some(7)), 7);
    assert_eq!(unix_from(None), 0);
}

#[test]
fn the_log_lies_in_the_data_directory() {
    assert_eq!(
        log_path(Some("/home/a")),
        "/home/a/.local/share/steampunk/steam-punk.log"
    );
    assert_eq!(
        log_path(None),
        "/tmp/.local/share/steampunk/steam-punk.log"
    );
}

#[test]
fn a_line_of_the_log_carries_its_stamp() {
    assert_eq!(
        log_line("2026-08-04 23:15:02", "x y"),
        "[2026-08-04 23:15:02] x y\n"
    );
    assert_eq!(
        start_message("0.4.8"),
        "Steam Punk v0.4.8 starting (timestamps below are UTC)"
    );
    assert_eq!(
        export_name("20260804-231502"),
        "steampunk-log-20260804-231502.txt"
    );
}

#[test]
fn an_export_holds_both_logs() {
    assert_eq!(
        export_text(Ok("a\n"), Ok("b\n")),
        "==== Steam Punk app log ====\na\n\n==== privileged setup log (/var/log/steampunk.log) ====\nb\n"
    );
    assert_eq!(
        export_text(Err("x"), Err("y")),
        "==== Steam Punk app log ====\n(could not read: x)\n\n==== privileged setup log (/var/log/steampunk.log) ====\n(not available: y)\n"
    );
}

#[test]
fn paths_are_joined_as_std_joins_them() {
    for base in ["", "/", "/a", "/a/", "a"] {
        for tail in ["", "b", "/b", "b/c", "."] {
            assert_eq!(
                join_path(base, tail),
                std::path::Path::new(base).join(tail).to_str().unwrap()
            );
        }
    }
}

#[test]
fn paths_are_compared_as_std_compares_them() {
    let list = [
        "", "/", "//", ".", "./", "./a", "a", "a/", "a/.", "a//b", "a/b", "/a", "/./a", "a/../b",
        "..", "../", "b",
    ];
    for a in list {
        for b in list {
            assert_eq!(
                same_path(a, b),
                std::path::Path::new(a) == std::path::Path::new(b),
                "{a} {b}"
            );
        }
    }
}

#[test]
fn dots_are_resolved_without_looking() {
    assert_eq!(
        normalize_lexical("/p/GE/files/lib/wine/../../bin/wineserver"),
        "/p/GE/files/bin/wineserver"
    );
    assert_eq!(normalize_lexical("./a//b/./c/"), "a/b/c");
    assert_eq!(normalize_lexical("a/../.."), "");
    let once = normalize_lexical("/x/../y/./z");
    assert_eq!(once, "/y/z");
    assert_eq!(normalize_lexical(&once), once);
}

#[test]
fn a_year_is_as_long_as_its_days() {
    let start = |unix: i64| civil_from_unix(unix);
    let mut day = 0i64;
    for year in 1970..2110i64 {
        assert_eq!(start(day * 86400), (year, 1, 1, 0, 0, 0));
        let leap = year % 4 == 0 && (year % 100 != 0 || year % 400 == 0);
        day += if leap { 366 } else { 365 };
    }
}

#[test]
fn a_stamp_can_stand_in_a_file_name() {
    for unix in [0, 1785885302, -62135596801, -99999999999999, i64::MAX, i64::MIN] {
        let stamp = filename_timestamp_at(unix);
        assert!(stamp.chars().all(|c| c.is_ascii_digit() || c == '-'), "{stamp}");
    }
}

#[test]
fn the_stamp_of_now_is_that_of_the_clock() {
    let seconds = || {
        std::time::SystemTime::now()
            .duration_since(std::time::UNIX_EPOCH)
            .unwrap()
            .as_secs() as i64
    };
    let before = seconds();
    let stamp = timestamp();
    let after = seconds();
    assert!((before..=after).any(|unix| timestamp_at(unix) == stamp), "{stamp}");
}

#[test]
fn byte_paths_are_compared_as_std_compares_them() {
    let list = [
        "", "/", "//", ".", "./a", "a", "a/", "a/.", "/a", "//a", "/./a", "a/\u{e9}", "a//\u{e9}/",
        "a/\u{e8}", "..", "a/../b",
    ];
    for a in list {
        for b in list {
            assert_eq!(
                same_byte_path(a.as_bytes(), b.as_bytes()),
                std::path::Path::new(a) == std::path::Path::new(b),
                "{a} {b}"
            );
        }
    }
    assert!(same_byte_path(b"a/\xff", b"a//\xff/"));
    assert!(!same_byte_path(b"a/\xff", b"a/\xfe"));
}
