use std::path::PathBuf;

use nexus::diff::{lcs_diff, render_diff, DiffOp};
use nexus::read_cache::{
    command_cache_key, dedupe_eligible, dedupe_enabled, dedupe_with_cache, entry_file_name, hash_key, unchanged_notice,
    CacheEntry, ReadCache, ReadCacheResult, MAX_CACHED_BYTES,
};
use nexus::telemetry_cmd::{
    env_override_active, run, status_report, TelemetrySettings, TelemetryStep, TelemetrySubcommand,
};
use nexus::text::{push_decimal, push_signed_decimal, str_eq};

fn entry(ts: i64, content: &str) -> Option<CacheEntry> {
    Some(CacheEntry { ts, content: content.to_string() })
}

fn unchanged_lines(text: &str) -> usize {
    let c = ReadCache::for_test(PathBuf::from("d"), 240);
    match c.check_and_update("k", "l", "h", text, entry(0, text), 0).result {
        ReadCacheResult::Unchanged { lines, .. } => lines,
        _ => panic!("expected Unchanged"),
    }
}

#[test]
fn lines_follow_std_lines() {
    assert_eq!(unchanged_lines("a\r\nb\n\nc\r"), 4);
    assert_eq!(unchanged_lines(""), 0);
    assert_eq!(unchanged_lines("\n"), 1);
    assert_eq!(unchanged_lines("x\ny\n"), 2);
    assert_eq!(unchanged_lines("x\ny"), 2);
}

/// Applies a rendered diff to `old` as a reader would: keeps the old segments
/// before the hunk, writes the hunk's `+` and ` ` lines, keeps the rest.
fn apply_delta(old: &str, rendered: &str) -> String {
    let lines: Vec<&str> = rendered.lines().collect();
    let at = lines[1].trim_start_matches("@@ -");
    let (start, rest) = at.split_once(',').unwrap();
    let start: usize = start.parse::<usize>().unwrap() - 1;
    let old_count: usize = rest.split(' ').next().unwrap().parse().unwrap();
    let segs: Vec<&str> = old.split_inclusive('\n').collect();
    let mut out: String = segs[..start].concat();
    for l in &lines[2..] {
        if !l.starts_with('-') {
            out.push_str(&l[1..]);
            out.push('\n');
        }
    }
    out.push_str(&segs[start + old_count..].concat());
    out
}

#[test]
fn diff_without_final_newline_when_last_line_unchanged() {
    let old = format!("x\n{}\nz", "y".repeat(300));
    let new = format!("X\n{}\nz", "y".repeat(300));
    let rendered = render_diff(&old, &new, "f", "h", 0).expect("the last line is unchanged");
    assert!(rendered.ends_with("@@ -1,1 +1,1 @@\n-x\n+X\n"));
    assert_eq!(apply_delta(&old, &rendered), new);
}

#[test]
fn diff_keeps_crlf_of_unchanged_lines() {
    let old = format!("a\r\n{}\nb\r\n", "y\n".repeat(100));
    let new = format!("a\r\n{}\nb\r\n", "y\n".repeat(99) + "w\n");
    let rendered = render_diff(&old, &new, "f", "h", 0).expect("the changed line ends in a plain newline");
    assert_eq!(apply_delta(&old, &rendered), new);
}

#[test]
fn crlf_text_is_sent_in_full() {
    let old: String = (0..60).map(|i| format!("row {}\r\n", i)).collect();
    let new = old.replace("row 30\r\n", "row thirty\r\n");
    assert_eq!(render_diff(&old, &new, "f", "h", 0), None);
}

#[test]
fn line_ending_change_is_never_lost() {
    let old = format!("a\n{}\n", "y".repeat(300));
    let new = format!("a\r\n{}\n", "y".repeat(300));
    assert_eq!(render_diff(&old, &new, "f", "h", 0), None);
    let c = ReadCache::for_test(PathBuf::from("d"), 240);
    let u = c.check_and_update("k", "f", "h", &new, entry(0, &old), 1);
    assert!(matches!(u.result, ReadCacheResult::Miss));
}

#[test]
fn lost_final_newline_is_never_lost() {
    let old: String = (0..100).map(|i| format!("line {}\n", i)).collect();
    let new = old.trim_end_matches('\n').to_string();
    assert_eq!(render_diff(&old, &new, "f", "h", 0), None);
    assert_eq!(render_diff(&new, &old, "f", "h", 0), None);
}

#[test]
fn hash_key_is_sixteen_hex_digits() {
    for key in ["", "k", "cmd|/repo|git status", "ünïcode"] {
        let h = hash_key(key);
        assert_eq!(h.len(), 16);
        assert!(h.chars().all(|c| c.is_ascii_digit() || ('a'..='f').contains(&c)));
    }
}

#[test]
fn decimal_rendering() {
    let mut s = String::new();
    push_decimal(&mut s, 0);
    s.push(' ');
    push_decimal(&mut s, 1234567890);
    s.push(' ');
    push_signed_decimal(&mut s, -42);
    s.push(' ');
    push_signed_decimal(&mut s, i64::MIN);
    assert_eq!(s, "0 1234567890 -42 -9223372036854775808");
}

#[test]
fn string_equality() {
    assert!(str_eq("héllo", "héllo"));
    assert!(!str_eq("héllo", "hello"));
    assert!(!str_eq("ab", "abc"));
    assert!(str_eq("", ""));
}

#[test]
fn lcs_diff_keeps_longest_common_subsequence() {
    let old = ["a", "b", "c", "d"];
    let new = ["a", "c", "e", "d"];
    assert_eq!(
        lcs_diff(&old, &new),
        vec![DiffOp::Same("a"), DiffOp::Del("b"), DiffOp::Same("c"), DiffOp::Add("e"), DiffOp::Same("d")]
    );
}

#[test]
fn lcs_diff_deletes_before_adding_on_a_tie() {
    assert_eq!(lcs_diff(&["x"], &["y"]), vec![DiffOp::Del("x"), DiffOp::Add("y")]);
    assert_eq!(lcs_diff(&[], &["y"]), vec![DiffOp::Add("y")]);
    assert_eq!(lcs_diff(&["x"], &[]), vec![DiffOp::Del("x")]);
    assert_eq!(lcs_diff(&[], &[]), Vec::<DiffOp>::new());
}

#[test]
fn diff_restores_new_from_old() {
    let old = ["p", "q", "r", "s", "t"];
    let new = ["q", "x", "r", "t", "u"];
    let ops = lcs_diff(&old, &new);
    let read: Vec<&str> = ops
        .iter()
        .filter_map(|o| match o {
            DiffOp::Same(l) | DiffOp::Del(l) => Some(*l),
            DiffOp::Add(_) => None,
        })
        .collect();
    let written: Vec<&str> = ops
        .iter()
        .filter_map(|o| match o {
            DiffOp::Same(l) | DiffOp::Add(l) => Some(*l),
            DiffOp::Del(_) => None,
        })
        .collect();
    assert_eq!(read, old.to_vec());
    assert_eq!(written, new.to_vec());
    let kept = ops.iter().filter(|o| matches!(o, DiffOp::Same(_))).count();
    assert_eq!(kept, 3);
}

#[test]
fn render_diff_exact_output() {
    let old: String = (0..100).map(|i| format!("line {}\n", i)).collect();
    let new = old.replace("line 50\n", "line fifty\n");
    let rendered = render_diff(&old, &new, "f.rs", "hint", 3).expect("small edit gives a diff");
    assert_eq!(
        rendered,
        "[nexus delta] f.rs changed since 3m ago — diff vs. previous output already in your context (hint)\n\
         @@ -51,1 +51,1 @@\n-line 50\n+line fifty\n"
    );
}

#[test]
fn render_diff_of_appended_line() {
    let old = "line\n".repeat(100);
    let new = format!("{}one new failure\n", old);
    let rendered = render_diff(&old, &new, "`pytest` output", "h", 0).expect("diff");
    assert!(rendered.ends_with("@@ -101,0 +101,1 @@\n+one new failure\n"));
}

#[test]
fn render_diff_refuses_when_not_smaller() {
    assert_eq!(render_diff("a\nb\nc\n", "a\nB\nc\n", "f.rs", "hint", 5), None);
}

#[test]
fn render_diff_refuses_huge_changed_region() {
    let old: String = (0..3001).map(|i| format!("a{}\n", i)).collect();
    let new: String = (0..3001).map(|i| format!("b{}\n", i)).collect();
    assert_eq!(render_diff(&old, &new, "f", "h", 0), None);
}

#[test]
fn hash_key_is_sha256_prefix() {
    assert_eq!(hash_key("k"), "8254c329a92850f6");
    assert_eq!(hash_key("a.rs|none"), "e3f27789779239c8");
    assert_eq!(hash_key(""), "e3b0c44298fc1c14");
    assert_eq!(entry_file_name("k"), "8254c329a92850f6.json");
}

#[test]
fn unchanged_notice_exact_text() {
    assert_eq!(
        unchanged_notice("src/main.rs", 5, 100, "full file: nexus read --no-cache src/main.rs"),
        "[nexus delta] src/main.rs unchanged since 5m ago (100 lines, already in your context — full file: nexus read --no-cache src/main.rs)\n"
    );
    assert_eq!(
        unchanged_notice("x", -3, 0, "h"),
        "[nexus delta] x unchanged since -3m ago (0 lines, already in your context — h)\n"
    );
}

#[test]
fn repeat_within_ttl_reports_age_in_whole_minutes() {
    let c = ReadCache::for_test(PathBuf::from("d"), 240);
    let u = c.check_and_update("k", "f.rs", "hint", "a\nb\nc", entry(1000, "a\nb\nc"), 1000 + 179);
    assert!(matches!(u.result, ReadCacheResult::Unchanged { age_minutes: 2, lines: 3 }));
    let stored = u.store.expect("stored");
    assert_eq!(stored.file_name, entry_file_name("k"));
    assert_eq!(stored.entry.ts, 1179);
    assert_eq!(stored.entry.content, "a\nb\nc");
}

#[test]
fn entry_at_the_ttl_boundary_counts() {
    let c = ReadCache::for_test(PathBuf::from("d"), 2);
    let fresh = c.check_and_update("k", "l", "h", "x\n", entry(0, "x\n"), 120);
    assert!(matches!(fresh.result, ReadCacheResult::Unchanged { age_minutes: 2, lines: 1 }));
    let stale = c.check_and_update("k", "l", "h", "x\n", entry(0, "x\n"), 121);
    assert!(matches!(stale.result, ReadCacheResult::Miss));
    assert!(stale.store.is_some());
}

#[test]
fn entry_from_the_future_has_negative_age() {
    let c = ReadCache::for_test(PathBuf::from("d"), 10);
    let u = c.check_and_update("k", "l", "h", "x\n", entry(200, "x\n"), 79);
    assert!(matches!(u.result, ReadCacheResult::Unchanged { age_minutes: -2, lines: 1 }));
}

#[test]
fn disabled_cache_stores_nothing() {
    let c = ReadCache::new(PathBuf::from("d"), 240, false);
    assert!(!c.admits("x\n"));
    let u = c.check_and_update("k", "l", "h", "x\n", entry(0, "x\n"), 1);
    assert!(matches!(u.result, ReadCacheResult::Miss));
    assert!(u.store.is_none());
    assert_eq!(c.dir(), &PathBuf::from("d"));
}

#[test]
fn admits_counts_utf8_bytes() {
    let c = ReadCache::for_test(PathBuf::from("d"), 240);
    assert!(c.admits(&"x".repeat(MAX_CACHED_BYTES)));
    assert!(!c.admits(&"é".repeat(MAX_CACHED_BYTES / 2 + 1)));
}

#[test]
fn command_keys_name_directory_and_command() {
    assert_eq!(command_cache_key("/repo", "git status"), "cmd|/repo|git status");
    assert_ne!(command_cache_key("/a", "x|y"), command_cache_key("/a|x", "y|"));
    assert_ne!(command_cache_key("/repo-a", "ls"), command_cache_key("/repo-b", "ls"));
}

#[test]
fn dedupe_needs_enough_bytes() {
    assert!(!dedupe_eligible(&"x".repeat(239)));
    assert!(dedupe_eligible(&"x".repeat(240)));
}

#[test]
fn dedupe_notice_exact_text() {
    let c = ReadCache::for_test(PathBuf::from("d"), 240);
    let output = "y\n".repeat(200);
    let (text, store) = dedupe_with_cache(&c, "/r", "make", &output, entry(0, &output), 60);
    assert_eq!(
        text.expect("notice"),
        "[nexus delta] `make` output unchanged since 1m ago (200 lines, already in your context — full output: rerun with RTK_NO_DELTA=1)\n"
    );
    assert_eq!(store.expect("stored").file_name, entry_file_name("cmd|/r|make"));
}

#[test]
fn telemetry_plans() {
    assert_eq!(run(&TelemetrySubcommand::Status), vec![TelemetryStep::ShowStatus]);
    assert_eq!(
        run(&TelemetrySubcommand::Disable),
        vec![
            TelemetryStep::SaveConsentOff { required: true },
            TelemetryStep::Print("Telemetry disabled.".to_string())
        ]
    );
    let enable = run(&TelemetrySubcommand::Enable);
    assert_eq!(enable[0], TelemetryStep::SaveConsentOff { required: false });
    assert_eq!(enable.len(), 3);
    let forget = run(&TelemetrySubcommand::Forget);
    assert_eq!(forget[0], TelemetryStep::SaveConsentOff { required: false });
    assert_eq!(forget[1], TelemetryStep::PurgeLocalData);
    assert_eq!(forget.len(), 4);
}

#[test]
fn telemetry_status_report_lines() {
    let settings = TelemetrySettings {
        consent_given: Some(false),
        consent_date: Some("2024-01-02".to_string()),
        enabled: false,
    };
    let lines = status_report(&settings, true);
    assert_eq!(
        lines,
        vec![
            "Telemetry status:",
            "  consent:       no",
            "  consent date:  2024-01-02",
            "  enabled:       no",
            "  env override:  blocked",
            "",
            "Telemetry has been removed from this build. No data is collected",
            "or transmitted from your machine. All command analytics stay local",
            "and are visible via `nexus gain`.",
        ]
    );
    let never = TelemetrySettings { consent_given: None, consent_date: None, enabled: true };
    let lines = status_report(&never, false);
    assert_eq!(lines[1], "  consent:       never asked");
    assert_eq!(lines[2], "  enabled:       yes");
    assert_eq!(lines.len(), 7);
}

#[test]
fn dedupe_gate() {
    assert!(dedupe_enabled(true, true, false));
    assert!(!dedupe_enabled(false, true, false));
    assert!(!dedupe_enabled(true, false, false));
    assert!(!dedupe_enabled(true, true, true));
}

#[test]
fn telemetry_env_override() {
    assert!(env_override_active("1"));
    assert!(!env_override_active("0"));
    assert!(!env_override_active(""));
}
