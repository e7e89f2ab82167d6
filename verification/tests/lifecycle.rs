//! The lifecycle log's lines and the boot's reading of the last one.

use lightpolars::lifecycle::{
    boot_events, civil_from_days, is_clean_end, last_line, one_line, panic_line, record, rfc3339_utc, stop,
};

#[test]
fn formats_utc_timestamps() {
    assert_eq!(rfc3339_utc(0, 0), "1970-01-01T00:00:00.000Z");
    // 1_790_215_201_306 ms after the epoch.
    assert_eq!(rfc3339_utc(1_790_215_201, 306), "2026-09-24T02:00:01.306Z");
    // A leap day.
    assert_eq!(rfc3339_utc(951_782_400, 0), "2000-02-29T00:00:00.000Z");
}

#[test]
fn a_run_ends_clean_only_with_stop() {
    assert!(is_clean_end("2026-09-24T02:00:01.306Z STOP motivo=SIGTERM sessões_abertas=1"));
    assert!(is_clean_end("2026-09-24T02:00:01.306Z UNCLEAN execução anterior ..."));
    assert!(!is_clean_end("2026-09-24T02:00:01.306Z START pid=1"));
    assert!(!is_clean_end("2026-09-24T02:00:01.306Z PANIC thread=x"));
    assert!(!is_clean_end(""));
}

#[test]
fn reads_the_last_non_empty_line() {
    assert_eq!(last_line("a START\nb STOP x\n\n").as_deref(), Some("b STOP x"));
}

#[test]
fn an_empty_or_blank_tail_has_no_last_line() {
    assert_eq!(last_line(""), None);
    assert_eq!(last_line("\n  \n\t\n"), None);
}

#[test]
fn a_carriage_return_before_the_break_is_not_part_of_the_line() {
    assert_eq!(last_line("x START\r\ny STOP z\r\n").as_deref(), Some("y STOP z"));
    assert_eq!(last_line("only line, no break").as_deref(), Some("only line, no break"));
}

#[test]
fn a_stop_line_reads_back_as_a_clean_end() {
    let event = stop("SIGTERM", 1);
    assert_eq!(event, "STOP motivo=SIGTERM sessões_abertas=1");
    let line = record(1_790_215_201, 306, &event);
    assert_eq!(line, "2026-09-24T02:00:01.306Z STOP motivo=SIGTERM sessões_abertas=1\n");
    let tail = format!("2026-09-24T01:00:00.000Z START pid=7\n{line}");
    let last = last_line(&tail).unwrap();
    assert!(is_clean_end(&last));
}

#[test]
fn a_start_line_reads_back_as_an_unclean_end() {
    let line = record(0, 5, "START pid=1 versão=0.1.0 endereço=127.0.0.1:9222");
    assert_eq!(line, "1970-01-01T00:00:00.005Z START pid=1 versão=0.1.0 endereço=127.0.0.1:9222\n");
    assert!(!is_clean_end(&last_line(&line).unwrap()));
}

#[test]
fn panic_payloads_stay_on_one_line() {
    assert_eq!(one_line("a\nb\r\nc"), "a b  c");
    assert_eq!(one_line("plain"), "plain");
}

#[test]
fn days_map_to_gregorian_dates() {
    assert_eq!(civil_from_days(0), (1970, 1, 1));
    assert_eq!(civil_from_days(11_016), (2000, 2, 29));
    assert_eq!(civil_from_days(-1), (1969, 12, 31));
    assert_eq!(civil_from_days(-719_468), (0, 3, 1));
}

#[test]
fn a_boot_after_an_unclean_end_reports_it_before_starting() {
    let events = boot_events(Some("2026-09-24T02:00:01.306Z START pid=1"), 7, "0.1.0", "127.0.0.1:9222");
    assert_eq!(
        events,
        vec![
            "UNCLEAN execução anterior terminou sem STOP (SIGKILL, OOM ou crash); última linha: 2026-09-24T02:00:01.306Z START pid=1".to_string(),
            "START pid=7 versão=0.1.0 endereço=127.0.0.1:9222".to_string(),
        ]
    );
}

#[test]
fn a_boot_after_a_clean_end_or_on_a_new_log_only_starts() {
    let start = vec!["START pid=7 versão=0.1.0 endereço=x".to_string()];
    assert_eq!(boot_events(Some("t STOP motivo=SIGTERM sessões_abertas=0"), 7, "0.1.0", "x"), start);
    assert_eq!(boot_events(None, 7, "0.1.0", "x"), start);
}

#[test]
fn an_unclean_line_left_last_is_not_reported_again() {
    let first = boot_events(Some("t PANIC thread=x"), 1, "v", "a");
    let line = record(10, 0, &first[0]);
    let again = boot_events(last_line(&line).as_deref(), 2, "v", "a");
    assert_eq!(again.len(), 1);
}

#[test]
fn a_panic_is_recorded_on_one_line() {
    assert_eq!(
        panic_line("main", "src/x.rs:1:2", "boom\nagain"),
        "PANIC thread=main em src/x.rs:1:2: boom again"
    );
}

#[test]
fn a_carriage_return_ending_the_text_stays_in_the_last_line() {
    assert_eq!(last_line("a START\nb STOP x\r").as_deref(), Some("b STOP x\r"));
    assert_eq!(last_line("a\r\nb\r\n").as_deref(), Some("b"));
}

#[test]
fn unicode_white_space_separates_the_words_too() {
    assert!(is_clean_end("t\u{3000}STOP x"));
    assert!(is_clean_end("t\u{a0}STOP"));
    assert!(!is_clean_end("t\u{200b}STOP"));
}

#[test]
fn white_space_agrees_with_the_standard_library() {
    for c in (0u32..=0x10FFFF).filter_map(char::from_u32) {
        assert_eq!(lightpolars::text::is_whitespace(c), c.is_whitespace(), "U+{:04X}", c as u32);
    }
}
