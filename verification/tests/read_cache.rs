use std::collections::HashMap;
use std::path::PathBuf;

use nexus::read_cache::{
    dedupe_with_cache, entry_file_name, unchanged_notice, CacheEntry, ReadCache, ReadCacheResult,
    MAX_CACHED_BYTES,
};

/// A cache whose entry files live in memory, keyed by file name.
struct MemCache {
    cache: ReadCache,
    files: HashMap<String, CacheEntry>,
}

fn cache(ttl_minutes: i64) -> MemCache {
    MemCache {
        cache: ReadCache::for_test(PathBuf::from("read-cache"), ttl_minutes),
        files: HashMap::new(),
    }
}

fn check(c: &mut MemCache, key: &str, label: &str, hint: &str, output: &str, now: i64) -> ReadCacheResult {
    let previous = if c.cache.admits(output) {
        c.files.get(&entry_file_name(key)).cloned()
    } else {
        None
    };
    let update = c.cache.check_and_update(key, label, hint, output, previous, now);
    if let Some(stored) = update.store {
        c.files.insert(stored.file_name, stored.entry);
    }
    update.result
}

fn dedupe(c: &mut MemCache, cwd: &str, cmd_label: &str, output: &str, now: i64) -> Option<String> {
    let key = nexus::read_cache::command_cache_key(cwd, cmd_label);
    let previous = if c.cache.admits(output) {
        c.files.get(&entry_file_name(&key)).cloned()
    } else {
        None
    };
    let (text, store) = dedupe_with_cache(&c.cache, cwd, cmd_label, output, previous, now);
    if let Some(stored) = store {
        c.files.insert(stored.file_name, stored.entry);
    }
    text
}

const T0: i64 = 1_700_000_000;

#[test]
fn first_read_is_miss() {
    let mut c = cache(240);
    assert!(matches!(check(&mut c, "k", "f.rs", "hint", "hello\n", T0), ReadCacheResult::Miss));
}

#[test]
fn second_identical_read_is_unchanged() {
    let mut c = cache(240);
    check(&mut c, "k", "f.rs", "hint", "hello\nworld\n", T0);
    match check(&mut c, "k", "f.rs", "hint", "hello\nworld\n", T0 + 1) {
        ReadCacheResult::Unchanged { lines, .. } => assert_eq!(lines, 2),
        _ => panic!("expected Unchanged"),
    }
}

#[test]
fn changed_read_yields_diff_for_small_edit() {
    let mut c = cache(240);
    let old: String = (0..100).map(|i| format!("line {}\n", i)).collect();
    let new = old.replace("line 50\n", "line fifty\n");
    check(&mut c, "k", "f.rs", "hint", &old, T0);
    match check(&mut c, "k", "f.rs", "hint", &new, T0 + 1) {
        ReadCacheResult::Diff { rendered } => {
            assert!(rendered.contains("-line 50"));
            assert!(rendered.contains("+line fifty"));
            assert!(rendered.len() < new.len() / 2, "diff must be small");
        }
        _ => panic!("expected Diff"),
    }
}

#[test]
fn rewrite_of_whole_file_falls_back_to_full() {
    let mut c = cache(240);
    let old: String = (0..50).map(|i| format!("alpha {}\n", i)).collect();
    let new: String = (0..50).map(|i| format!("omega {}\n", i)).collect();
    check(&mut c, "k", "f.rs", "hint", &old, T0);
    // Diff would be about twice the file: not worthwhile, so a miss (full output).
    assert!(matches!(check(&mut c, "k", "f.rs", "hint", &new, T0 + 1), ReadCacheResult::Miss));
}

#[test]
fn expired_entry_is_miss() {
    let mut c = cache(0);
    check(&mut c, "k", "f.rs", "hint", "hello\n", T0);
    // 1.1 s later, past a time to live of zero minutes.
    assert!(matches!(check(&mut c, "k", "f.rs", "hint", "hello\n", T0 + 1), ReadCacheResult::Miss));
}

#[test]
fn distinct_keys_do_not_collide() {
    let mut c = cache(240);
    check(&mut c, "a.rs|none", "a.rs", "hint", "content\n", T0);
    assert!(matches!(
        check(&mut c, "b.rs|none", "b.rs", "hint", "content\n", T0 + 1),
        ReadCacheResult::Miss
    ));
}

#[test]
fn oversized_output_is_never_cached() {
    let mut c = cache(240);
    let big = "x".repeat(MAX_CACHED_BYTES + 1);
    assert!(matches!(check(&mut c, "k", "f.rs", "hint", &big, T0), ReadCacheResult::Miss));
    assert!(matches!(check(&mut c, "k", "f.rs", "hint", &big, T0 + 1), ReadCacheResult::Miss));
    assert!(c.files.is_empty());
}

#[test]
fn unchanged_notice_mentions_escape_hatch() {
    let n = unchanged_notice("src/main.rs", 5, 100, "full file: nexus read --no-cache src/main.rs");
    assert!(n.contains("--no-cache"));
    assert!(n.contains("src/main.rs"));
}

#[test]
fn command_dedupe_repeat_yields_notice() {
    let mut c = cache(240);
    let output = "line of command output\n".repeat(100);
    assert!(dedupe(&mut c, "/repo", "git status", &output, T0).is_none());
    let notice = dedupe(&mut c, "/repo", "git status", &output, T0 + 1)
        .expect("second identical run should dedupe");
    assert!(notice.contains("git status"));
    assert!(notice.contains("unchanged"));
    assert!(notice.contains("RTK_NO_DELTA"));
    assert!(notice.len() < output.len() / 10);
}

#[test]
fn command_dedupe_distinct_cwd_no_collision() {
    let mut c = cache(240);
    let output = "line\n".repeat(100);
    assert!(dedupe(&mut c, "/repo-a", "git status", &output, T0).is_none());
    assert!(dedupe(&mut c, "/repo-b", "git status", &output, T0 + 1).is_none());
}

#[test]
fn command_dedupe_changed_output_yields_diff() {
    let mut c = cache(240);
    let old = "line\n".repeat(100);
    let new = format!("{}one new failure\n", old);
    assert!(dedupe(&mut c, "/repo", "pytest", &old, T0).is_none());
    let diff = dedupe(&mut c, "/repo", "pytest", &new, T0 + 1)
        .expect("changed output should yield diff");
    assert!(diff.contains("+one new failure"));
}
