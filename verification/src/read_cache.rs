//! Delta cache: avoids re-sending output that the consumer has already seen.
//!
//! On a repeat under the same key, identical output becomes a one-line
//! "unchanged" notice and changed output a unified diff against the version
//! shown before. A time to live bounds how long an entry counts, and every
//! notice names the way to get the full output back. Reading and writing the
//! entries is left to the caller: this module decides, from the entry found
//! and the current time, what to show and what to store.

use vstd::prelude::*;
use vstd::utf8::encode_utf8;
use sha2::{Digest, Sha256};
use std::path::PathBuf;
use crate::diff::{
    changed_region, delta_text, diff_script, lemma_delta_restores_new, new_side, old_side, render_diff,
    rendered_delta,
};
use crate::text::{
    digit_char, line_views, push_decimal, push_digit, push_signed_decimal, decimal, signed_decimal,
    split_lines, str_eq, text_lines,
};

verus! {

/// Outputs larger than this many bytes are never cached (diffing costs more than it saves).
pub const MAX_CACHED_BYTES: usize = 2 * 1024 * 1024;

/// Outputs smaller than this many bytes are not worth replacing with a notice.
pub const MIN_DEDUP_BYTES: usize = 240;

/// std's `PathBuf`, carried through the cache as an opaque value.
#[verifier::external_type_specification]
#[verifier::external_body]
pub struct ExPathBuf(PathBuf);

/// The SHA-256 digest of `data`, as sha2 computes it.
pub uninterp spec fn sha256_digest(data: Seq<u8>) -> Seq<u8>;

/// Calls `sha2::Sha256::digest` (the `Digest` trait's one-shot hash).
/// Trusted: the result is the digest of exactly `data`, named by
/// `sha256_digest`, and it is 32 bytes long (sha2 declares the output size of
/// `Sha256` as `U32`).
#[verifier::external_body]
fn sha256(data: &[u8]) -> (digest: Vec<u8>)
    ensures
        digest@ == sha256_digest(data@),
        digest@.len() == 32,
{
    Sha256::digest(data).to_vec()
}

/// Lower-case hexadecimal notation of a byte string, two digits per byte.
pub open spec fn hex_bytes(b: Seq<u8>) -> Seq<char>
    decreases b.len(),
{
    if b.len() == 0 {
        seq![]
    } else {
        hex_bytes(b.drop_last()) + seq![digit_char((b.last() / 16) as int), digit_char((b.last() % 16) as int)]
    }
}

/// A digit of lower-case hexadecimal notation.
pub open spec fn is_hex_digit(c: char) -> bool {
    ('0' <= c <= '9') || ('a' <= c <= 'f')
}

proof fn lemma_hex_bytes(b: Seq<u8>)
    ensures
        hex_bytes(b).len() == 2 * b.len(),
        forall|i: int| 0 <= i < hex_bytes(b).len() ==> is_hex_digit(#[trigger] hex_bytes(b)[i]),
    decreases b.len(),
{
    if b.len() > 0 {
        lemma_hex_bytes(b.drop_last());
        let h = hex_bytes(b);
        let p = hex_bytes(b.drop_last());
        assert forall|i: int| 0 <= i < h.len() implies is_hex_digit(#[trigger] h[i]) by {
            if i < p.len() {
                assert(h[i] == p[i]);
            }
        }
    }
}

/// The cache's name for a key: the first eight bytes of the SHA-256 digest of
/// its UTF-8 bytes, in hexadecimal.
pub open spec fn key_hash(key: Seq<char>) -> Seq<char> {
    hex_bytes(sha256_digest(encode_utf8(key)).take(8))
}

/// Name of the file that holds the entry for a key.
pub open spec fn entry_file(key: Seq<char>) -> Seq<char> {
    key_hash(key) + ".json"@
}

/// Hashes a cache key to sixteen hex digits; plenty for a local,
/// non-adversarial cache.
pub fn hash_key(key: &str) -> (hash: String)
    ensures
        hash@ == key_hash(key@),
        hash@.len() == 16,
        forall|i: int| 0 <= i < 16 ==> is_hex_digit(#[trigger] hash@[i]),
{
    let digest = sha256(key.as_bytes());
    let mut hash = String::new();
    let mut i: usize = 0;
    while i < 8
        invariant
            digest@.len() == 32,
            i <= 8,
            hash@ == hex_bytes(digest@.take(i as int)),
        decreases 8 - i,
    {
        let byte = digest[i];
        push_digit(&mut hash, byte / 16);
        push_digit(&mut hash, byte % 16);
        assert(digest@.take(i + 1 as int).drop_last() =~= digest@.take(i as int));
        i = i + 1;
    }
    proof {
        assert(digest@.take(8) =~= digest@.take(i as int));
        lemma_hex_bytes(digest@.take(8));
    }
    hash
}

/// Name of the file that holds the entry for `key`.
pub fn entry_file_name(key: &str) -> (name: String)
    ensures
        name@ == entry_file(key@),
{
    let mut name = hash_key(key);
    name.append(".json");
    name
}

/// What was last sent for a key, and when.
#[derive(Debug, Clone)]
pub struct CacheEntry {
    /// Unix time (seconds) at which this content was last sent in full or as a diff.
    pub ts: i64,
    pub content: String,
}

/// What to print for an output.
#[derive(Debug)]
pub enum ReadCacheResult {
    /// No usable entry: print the full output.
    Miss,
    /// Identical to what was sent before: print a one-line notice.
    Unchanged { age_minutes: i64, lines: usize },
    /// Changed: print this notice and unified diff instead.
    Diff { rendered: String },
}

/// A `ReadCacheResult` as a value.
pub enum CacheVerdict {
    Miss,
    Unchanged { age_minutes: int, lines: nat },
    Diff { rendered: Seq<char> },
}

impl View for ReadCacheResult {
    type V = CacheVerdict;

    open spec fn view(&self) -> CacheVerdict {
        match self {
            ReadCacheResult::Miss => CacheVerdict::Miss,
            ReadCacheResult::Unchanged { age_minutes, lines } => CacheVerdict::Unchanged {
                age_minutes: *age_minutes as int,
                lines: *lines as nat,
            },
            ReadCacheResult::Diff { rendered } => CacheVerdict::Diff { rendered: rendered@ },
        }
    }
}

/// An entry to write, and the file to write it to.
#[derive(Debug)]
pub struct StoredEntry {
    pub file_name: String,
    pub entry: CacheEntry,
}

/// The outcome of one output: what to print, and what to store (if anything).
#[derive(Debug)]
pub struct CacheUpdate {
    pub result: ReadCacheResult,
    pub store: Option<StoredEntry>,
}

/// `d / 60` rounded toward zero, as Rust's integer division does.
pub open spec fn whole_minutes(d: int) -> int {
    if d >= 0 {
        d / 60
    } else {
        -((-d) / 60)
    }
}

/// An entry found for an output: its time and content.
pub open spec fn entry_view(e: Option<CacheEntry>) -> Option<(int, Seq<char>)> {
    match e {
        Some(entry) => Some((entry.ts as int, entry.content@)),
        None => None,
    }
}

/// What to print for `output` given the entry found, the time to live and the
/// current time: a missing or expired entry is a miss; a fresh entry with the
/// same content gives a notice with the entry's age in whole minutes and the
/// output's line count; a fresh entry with other content gives the diff
/// against it, or a miss when the diff would lose part of the text (see
/// `rendered_delta`) or is not worth sending.
pub open spec fn cache_verdict(
    ttl_minutes: int,
    previous: Option<(int, Seq<char>)>,
    now: int,
    output: Seq<char>,
    label: Seq<char>,
    hint: Seq<char>,
) -> CacheVerdict {
    match previous {
        None => CacheVerdict::Miss,
        Some((ts, content)) => if now - ts <= ttl_minutes * 60 {
            let age = whole_minutes(now - ts);
            if content == output {
                CacheVerdict::Unchanged { age_minutes: age, lines: text_lines(output).len() }
            } else {
                match rendered_delta(content, output, label, hint, age) {
                    Some(r) => CacheVerdict::Diff { rendered: r },
                    None => CacheVerdict::Miss,
                }
            }
        } else {
            CacheVerdict::Miss
        },
    }
}

/// A delta cache whose entries live in `dir`.
pub struct ReadCache {
    dir: PathBuf,
    ttl_minutes: i64,
    enabled: bool,
}

impl ReadCache {
    /// How long an entry stays usable, in minutes.
    pub closed spec fn ttl(&self) -> int {
        self.ttl_minutes as int
    }

    /// Whether the cache is in use at all.
    pub closed spec fn is_enabled(&self) -> bool {
        self.enabled
    }

    /// The directory that holds the entries.
    pub closed spec fn directory(&self) -> PathBuf {
        self.dir
    }

    /// Whether an output of these characters is cached: the cache is enabled
    /// and the output's UTF-8 form is at most `MAX_CACHED_BYTES` long.
    pub open spec fn admits_text(&self, output: Seq<char>) -> bool {
        self.is_enabled() && encode_utf8(output).len() <= MAX_CACHED_BYTES
    }

    /// A cache in `dir` with the given time to live and on/off switch.
    pub fn new(dir: PathBuf, ttl_minutes: i64, enabled: bool) -> (cache: ReadCache)
        ensures
            cache.directory() == dir,
            cache.ttl() == ttl_minutes,
            cache.is_enabled() == enabled,
    {
        ReadCache { dir, ttl_minutes, enabled }
    }

    /// An enabled cache in `dir` with the given time to live.
    pub fn for_test(dir: PathBuf, ttl_minutes: i64) -> (cache: ReadCache)
        ensures
            cache.directory() == dir,
            cache.ttl() == ttl_minutes,
            cache.is_enabled(),
    {
        ReadCache { dir, ttl_minutes, enabled: true }
    }

    /// The directory that holds the entries.
    pub fn dir(&self) -> (dir: &PathBuf)
        ensures
            *dir == self.directory(),
    {
        &self.dir
    }

    /// Whether `output` is cached at all (see `admits_text`).
    pub fn admits(&self, output: &str) -> (res: bool)
        ensures
            res == self.admits_text(output@),
    {
        self.enabled && output.as_bytes().len() <= MAX_CACHED_BYTES
    }

    /// Compares `output` with `previous`, the entry found under `key` (if
    /// any), at time `now` (Unix seconds), and says what to print and what to
    /// store. An output that the cache does not admit is a miss and nothing is
    /// stored; otherwise the output is stored under `key` with time `now`.
    /// `recover_hint` tells the reader how to get the full output if it no
    /// longer has it.
    pub fn check_and_update(
        &self,
        key: &str,
        display_label: &str,
        recover_hint: &str,
        output: &str,
        previous: Option<CacheEntry>,
        now: i64,
    ) -> (update: CacheUpdate)
        ensures
            !self.admits_text(output@) ==> update.result@ == CacheVerdict::Miss && update.store is None,
            self.admits_text(output@) ==> {
                &&& update.result@ == cache_verdict(
                    self.ttl(),
                    entry_view(previous),
                    now as int,
                    output@,
                    display_label@,
                    recover_hint@,
                )
                &&& (update.store matches Some(s) && s.file_name@ == entry_file(key@) && s.entry.ts
                    == now && s.entry.content@ == output@)
            },
    {
        if !self.admits(output) {
            return CacheUpdate { result: ReadCacheResult::Miss, store: None };
        }
        let result = match previous {
            None => ReadCacheResult::Miss,
            Some(entry) => {
                let elapsed: i128 = now as i128 - entry.ts as i128;
                if elapsed <= self.ttl_minutes as i128 * 60 {
                    let age_minutes: i64 = if elapsed >= 0 {
                        (elapsed as u128 / 60) as i64
                    } else {
                        -(((-elapsed) as u128 / 60) as i64)
                    };
                    if str_eq(entry.content.as_str(), output) {
                        let lines = split_lines(output);
                        assert(lines@.len() == line_views(lines@).len());
                        ReadCacheResult::Unchanged { age_minutes, lines: lines.len() }
                    } else {
                        match render_diff(entry.content.as_str(), output, display_label, recover_hint, age_minutes) {
                            Some(rendered) => ReadCacheResult::Diff { rendered },
                            None => ReadCacheResult::Miss,
                        }
                    }
                } else {
                    ReadCacheResult::Miss
                }
            },
        };
        let mut content = String::new();
        content.append(output);
        let file_name = entry_file_name(key);
        CacheUpdate { result, store: Some(StoredEntry { file_name, entry: CacheEntry { ts: now, content } }) }
    }
}


/// The one-line notice for an output identical to the one sent `age_minutes` ago.
pub open spec fn notice_text(label: Seq<char>, age_minutes: int, lines: nat, hint: Seq<char>) -> Seq<char> {
    "[nexus delta] "@ + label + " unchanged since "@ + signed_decimal(age_minutes) + "m ago ("@
        + decimal(lines) + " lines, already in your context — "@ + hint + ")\n"@
}

/// One-line notice for an unchanged repeat output.
pub fn unchanged_notice(display_label: &str, age_minutes: i64, lines: usize, recover_hint: &str) -> (notice: String)
    ensures
        notice@ == notice_text(display_label@, age_minutes as int, lines as nat, recover_hint@),
{
    let mut notice = String::new();
    notice.append("[nexus delta] ");
    notice.append(display_label);
    notice.append(" unchanged since ");
    push_signed_decimal(&mut notice, age_minutes);
    notice.append("m ago (");
    push_decimal(&mut notice, lines as u128);
    notice.append(" lines, already in your context — ");
    notice.append(recover_hint);
    notice.append(")\n");
    assert(notice@ =~= notice_text(display_label@, age_minutes as int, lines as nat, recover_hint@));
    notice
}

/// How a command's output names the way back to its full text.
pub const COMMAND_RECOVER_HINT: &'static str = "full output: rerun with RTK_NO_DELTA=1";

/// Cache key of a command's output: working directory and command line, so
/// that the same command in different directories never shares an entry.
pub open spec fn command_key(cwd: Seq<char>, cmd_label: Seq<char>) -> Seq<char> {
    "cmd|"@ + cwd + "|"@ + cmd_label
}

/// How a command's output is named in its notices.
pub open spec fn command_display(cmd_label: Seq<char>) -> Seq<char> {
    "`"@ + cmd_label + "` output"@
}

/// Text to print for a cache decision: none on a miss, the notice when the
/// output is unchanged, the diff when it changed.
pub open spec fn replacement_text(v: CacheVerdict, label: Seq<char>, hint: Seq<char>) -> Option<Seq<char>> {
    match v {
        CacheVerdict::Miss => None,
        CacheVerdict::Unchanged { age_minutes, lines } => Some(notice_text(label, age_minutes, lines, hint)),
        CacheVerdict::Diff { rendered } => Some(rendered),
    }
}

/// The cache key of the output of `cmd_label` run in `cwd`.
pub fn command_cache_key(cwd: &str, cmd_label: &str) -> (key: String)
    ensures
        key@ == command_key(cwd@, cmd_label@),
{
    let mut key = String::new();
    key.append("cmd|");
    key.append(cwd);
    key.append("|");
    key.append(cmd_label);
    assert(key@ =~= command_key(cwd@, cmd_label@));
    key
}

/// Whether a command's output is long enough to be worth replacing with a
/// notice: at least `MIN_DEDUP_BYTES` bytes of UTF-8.
pub fn dedupe_eligible(output: &str) -> (res: bool)
    ensures
        res == (encode_utf8(output@).len() >= MIN_DEDUP_BYTES),
{
    output.as_bytes().len() >= MIN_DEDUP_BYTES
}

/// An optional text, as a value.
pub open spec fn text_view(t: Option<String>) -> Option<Seq<char>> {
    match t {
        Some(text) => Some(text@),
        None => None,
    }
}

/// An entry to store, as a value: file name, time and content.
pub open spec fn stored_view(s: Option<StoredEntry>) -> Option<(Seq<char>, int, Seq<char>)> {
    match s {
        Some(st) => Some((st.file_name@, st.entry.ts as int, st.entry.content@)),
        None => None,
    }
}

/// What deduplicating `output` of `cmd_label` run in `cwd` gives, when
/// `previous` was found under the command's key: the text to print in its
/// place (`None` for the output itself), and the entry to store. An output
/// that the cache does not admit is printed as is and nothing is stored;
/// otherwise the output is stored under the command's key with time `now`.
pub open spec fn dedupe_outcome(
    cache: ReadCache,
    cwd: Seq<char>,
    cmd_label: Seq<char>,
    output: Seq<char>,
    previous: Option<(int, Seq<char>)>,
    now: int,
) -> (Option<Seq<char>>, Option<(Seq<char>, int, Seq<char>)>) {
    let label = command_display(cmd_label);
    let hint = COMMAND_RECOVER_HINT@;
    if cache.admits_text(output) {
        (
            replacement_text(cache_verdict(cache.ttl(), previous, now, output, label, hint), label, hint),
            Some((entry_file(command_key(cwd, cmd_label)), now, output)),
        )
    } else {
        (None, None)
    }
}

/// Whether command outputs are deduplicated at all: the delta cache and its
/// use for commands are both enabled in the configuration, and the
/// `RTK_NO_DELTA` escape hatch is not set.
pub fn dedupe_enabled(cache_enabled: bool, commands_enabled: bool, no_delta_set: bool) -> (res: bool)
    ensures
        res == (cache_enabled && commands_enabled && !no_delta_set),
{
    cache_enabled && commands_enabled && !no_delta_set
}

/// Delta-dedup a command's output: the text to print in its place (a notice
/// or a diff), or `None` to print the output itself, and the entry to store.
/// `previous` is the entry found under `command_cache_key(cwd, cmd_label)`.
pub fn dedupe_with_cache(
    cache: &ReadCache,
    cwd: &str,
    cmd_label: &str,
    output: &str,
    previous: Option<CacheEntry>,
    now: i64,
) -> (res: (Option<String>, Option<StoredEntry>))
    ensures
        text_view(res.0) == dedupe_outcome(*cache, cwd@, cmd_label@, output@, entry_view(previous), now as int).0,
        stored_view(res.1) == dedupe_outcome(*cache, cwd@, cmd_label@, output@, entry_view(previous), now as int).1,
{
    let key = command_cache_key(cwd, cmd_label);
    let mut label = String::new();
    label.append("`");
    label.append(cmd_label);
    label.append("` output");
    assert(label@ =~= command_display(cmd_label@));
    let hint = COMMAND_RECOVER_HINT;
    let update = cache.check_and_update(key.as_str(), label.as_str(), hint, output, previous, now);
    let text = match update.result {
        ReadCacheResult::Miss => None,
        ReadCacheResult::Unchanged { age_minutes, lines } => Some(
            unchanged_notice(label.as_str(), age_minutes, lines, hint),
        ),
        ReadCacheResult::Diff { rendered } => Some(rendered),
    };
    (text, update.store)
}

/// Read after write: once an output has been stored, the same output within
/// the time to live is reported unchanged, with the entry's age in whole
/// minutes and the output's line count.
pub proof fn lemma_repeat_within_ttl_is_unchanged(
    cache: ReadCache,
    stored: CacheEntry,
    now: int,
    output: Seq<char>,
    label: Seq<char>,
    hint: Seq<char>,
)
    requires
        stored.content@ == output,
        0 <= now - stored.ts <= cache.ttl() * 60,
    ensures
        cache_verdict(cache.ttl(), entry_view(Some(stored)), now, output, label, hint)
            == (CacheVerdict::Unchanged {
            age_minutes: (now - stored.ts) / 60,
            lines: text_lines(output).len(),
        }),
{
}

/// The time to live bounds what counts: with no entry, or one older than the
/// time to live, the output is a miss.
pub proof fn lemma_absent_or_expired_is_miss(
    ttl_minutes: int,
    previous: Option<(int, Seq<char>)>,
    now: int,
    output: Seq<char>,
    label: Seq<char>,
    hint: Seq<char>,
)
    requires
        previous matches Some((ts, _)) ==> now - ts > ttl_minutes * 60,
    ensures
        cache_verdict(ttl_minutes, previous, now, output, label, hint) == CacheVerdict::Miss,
{
}

/// A diff is only sent when it is clearly smaller than the output (under
/// three fifths of its UTF-8 length), and it loses nothing: it is the delta
/// text against the stored output, whose hunk turns the stored lines into
/// the new ones.
pub proof fn lemma_diff_is_smaller_and_lossless(
    ttl_minutes: int,
    ts: int,
    content: Seq<char>,
    now: int,
    output: Seq<char>,
    label: Seq<char>,
    hint: Seq<char>,
    rendered: Seq<char>,
)
    requires
        cache_verdict(ttl_minutes, Some((ts, content)), now, output, label, hint)
            == (CacheVerdict::Diff { rendered }),
    ensures
        encode_utf8(rendered).len() * 5 < encode_utf8(output).len() * 3,
        rendered == delta_text(content, output, label, hint, whole_minutes(now - ts)),
        content != output,
        ({
            let (am, bm, start) = changed_region(content, output);
            let a = text_lines(content);
            let script = diff_script(am, bm, 0, 0);
            &&& a == a.take(start as int) + old_side(script) + a.skip((start + am.len()) as int)
            &&& text_lines(output) == a.take(start as int) + new_side(script) + a.skip(
                (start + am.len()) as int,
            )
        }),
{
    lemma_delta_restores_new(content, output);
}

/// Whether `sub` occurs in `s` as a contiguous piece.
pub open spec fn contains_text(s: Seq<char>, sub: Seq<char>) -> bool {
    exists|i: int| 0 <= i <= s.len() - sub.len() && #[trigger] s.subrange(i, i + sub.len()) == sub
}

/// Every notice names its escape hatch: an unchanged notice holds the label
/// and the recovery hint, and so does a diff's header.
pub proof fn lemma_notices_name_hint(label: Seq<char>, age_minutes: int, lines: nat, hint: Seq<char>, old: Seq<char>, new: Seq<char>)
    ensures
        contains_text(notice_text(label, age_minutes, lines, hint), label),
        contains_text(notice_text(label, age_minutes, lines, hint), hint),
        contains_text(delta_text(old, new, label, hint, age_minutes), label),
        contains_text(delta_text(old, new, label, hint, age_minutes), hint),
{
    let n = notice_text(label, age_minutes, lines, hint);
    let p1 = "[nexus delta] "@;
    assert(n.subrange(p1.len() as int, (p1.len() + label.len()) as int) =~= label);
    let p2 = p1 + label + " unchanged since "@ + signed_decimal(age_minutes) + "m ago ("@
        + decimal(lines) + " lines, already in your context — "@;
    assert(n.subrange(p2.len() as int, (p2.len() + hint.len()) as int) =~= hint);
    let d = delta_text(old, new, label, hint, age_minutes);
    assert(d.subrange(p1.len() as int, (p1.len() + label.len()) as int) =~= label);
    let p3 = p1 + label + " changed since "@ + signed_decimal(age_minutes)
        + "m ago — diff vs. previous output already in your context ("@;
    assert(d.subrange(p3.len() as int, (p3.len() + hint.len()) as int) =~= hint);
}

/// Keys of commands do not collide: the same command in two directories, or
/// two commands in the same directory, have different keys.
pub proof fn lemma_command_keys_distinct(cwd1: Seq<char>, cwd2: Seq<char>, label1: Seq<char>, label2: Seq<char>)
    ensures
        command_key(cwd1, label1) == command_key(cwd2, label1) ==> cwd1 == cwd2,
        command_key(cwd1, label1) == command_key(cwd1, label2) ==> label1 == label2,
{
    reveal_strlit("cmd|");
    reveal_strlit("|");
    assert("cmd|"@.len() == 4);
    assert("|"@.len() == 1);
    assert(command_key(cwd1, label1).len() == 5 + cwd1.len() + label1.len());
    assert(command_key(cwd2, label1).len() == 5 + cwd2.len() + label1.len());
    assert(command_key(cwd1, label2).len() == 5 + cwd1.len() + label2.len());
    if command_key(cwd1, label1) == command_key(cwd2, label1) {
        let k = command_key(cwd1, label1);
        assert(cwd1.len() == cwd2.len());
        assert forall|i: int| 0 <= i < cwd1.len() implies cwd1[i] == cwd2[i] by {
            assert(k[4 + i] == cwd1[i]);
            assert(command_key(cwd2, label1)[4 + i] == cwd2[i]);
        }
        assert(cwd1 =~= cwd2);
    }
    if command_key(cwd1, label1) == command_key(cwd1, label2) {
        let k = command_key(cwd1, label1);
        assert(label1.len() == label2.len());
        assert forall|i: int| 0 <= i < label1.len() implies label1[i] == label2[i] by {
            assert(k[5 + cwd1.len() + i] == label1[i]);
            assert(command_key(cwd1, label2)[5 + cwd1.len() + i] == label2[i]);
        }
        assert(label1 =~= label2);
    }
}


/// The cache entries on disk: entry file name to (time, content).
pub open spec fn store_lookup(store: Map<Seq<char>, (int, Seq<char>)>, file: Seq<char>) -> Option<(int, Seq<char>)> {
    if store.dom().contains(file) {
        Some(store[file])
    } else {
        None
    }
}

/// One deduplicated command run against the entries on disk: the entry is
/// read from the command's file, and what `dedupe_outcome` says to store is
/// written back. Gives the text to print and the entries afterwards.
pub open spec fn dedupe_call(
    cache: ReadCache,
    store: Map<Seq<char>, (int, Seq<char>)>,
    cwd: Seq<char>,
    cmd_label: Seq<char>,
    output: Seq<char>,
    now: int,
) -> (Option<Seq<char>>, Map<Seq<char>, (int, Seq<char>)>) {
    let previous = store_lookup(store, entry_file(command_key(cwd, cmd_label)));
    let (text, stored) = dedupe_outcome(cache, cwd, cmd_label, output, previous, now);
    (
        text,
        match stored {
            Some((file, ts, content)) => store.insert(file, (ts, content)),
            None => store,
        },
    )
}

/// The entries after a run of deduplicated calls of one command in one
/// directory, each call an output and a time.
pub open spec fn dedupe_calls(
    cache: ReadCache,
    store: Map<Seq<char>, (int, Seq<char>)>,
    cwd: Seq<char>,
    cmd_label: Seq<char>,
    calls: Seq<(Seq<char>, int)>,
) -> Map<Seq<char>, (int, Seq<char>)>
    decreases calls.len(),
{
    if calls.len() == 0 {
        store
    } else {
        dedupe_calls(
            cache,
            dedupe_call(cache, store, cwd, cmd_label, calls[0].0, calls[0].1).1,
            cwd,
            cmd_label,
            calls.drop_first(),
        )
    }
}

proof fn lemma_dedupe_calls_keep_other_file(
    cache: ReadCache,
    store: Map<Seq<char>, (int, Seq<char>)>,
    cwd: Seq<char>,
    cmd_label: Seq<char>,
    calls: Seq<(Seq<char>, int)>,
    other: Seq<char>,
)
    requires
        other != entry_file(command_key(cwd, cmd_label)),
    ensures
        store_lookup(dedupe_calls(cache, store, cwd, cmd_label, calls), other) == store_lookup(store, other),
    decreases calls.len(),
{
    if calls.len() > 0 {
        let next = dedupe_call(cache, store, cwd, cmd_label, calls[0].0, calls[0].1).1;
        assert(store_lookup(next, other) == store_lookup(store, other));
        lemma_dedupe_calls_keep_other_file(cache, next, cwd, cmd_label, calls.drop_first(), other);
    }
}

/// Identical commands in different directories never collide: whatever runs
/// of `cmd_label` happened in `cwd1`, a run in `cwd2` prints the same text and
/// leaves the same entry for `cwd2` as if they had not happened, as long as
/// the two directories' keys hash to different entry files.
pub proof fn lemma_other_directory_does_not_interfere(
    cache: ReadCache,
    store: Map<Seq<char>, (int, Seq<char>)>,
    cwd1: Seq<char>,
    cwd2: Seq<char>,
    cmd_label: Seq<char>,
    calls: Seq<(Seq<char>, int)>,
    output: Seq<char>,
    now: int,
)
    requires
        entry_file(command_key(cwd1, cmd_label)) != entry_file(command_key(cwd2, cmd_label)),
    ensures
        ({
            let after = dedupe_calls(cache, store, cwd1, cmd_label, calls);
            let file2 = entry_file(command_key(cwd2, cmd_label));
            let with = dedupe_call(cache, after, cwd2, cmd_label, output, now);
            let without = dedupe_call(cache, store, cwd2, cmd_label, output, now);
            &&& with.0 == without.0
            &&& store_lookup(with.1, file2) == store_lookup(without.1, file2)
        }),
{
    let file2 = entry_file(command_key(cwd2, cmd_label));
    lemma_dedupe_calls_keep_other_file(cache, store, cwd1, cmd_label, calls, file2);
}


/// Whole minutes round toward zero: for a non-negative span `d` (seconds)
/// the age `m` satisfies `60 m <= d < 60 m + 60`, and for a negative span
/// `60 m - 60 < d <= 60 m`.
pub proof fn lemma_whole_minutes(d: int)
    ensures
        d >= 0 ==> 0 <= d - 60 * whole_minutes(d) < 60,
        d < 0 ==> 0 <= 60 * whole_minutes(d) - d < 60,
{
}

/// What the cache says for an output, in terms of the entry found:
/// - it is "unchanged" exactly when the entry is within the time to live and
///   holds the same content as the output; the notice then counts the
///   output's lines and gives the entry's age in whole minutes;
/// - it is a diff only when the entry is within the time to live and its
///   content differs, and then the diff is the rendered delta from the stored
///   content to the output; and whenever that delta exists, it is sent;
/// - in every other case (no entry, an expired entry, or no worthwhile
///   lossless diff) it is a miss.
pub proof fn lemma_cache_verdict_cases(
    ttl_minutes: int,
    previous: Option<(int, Seq<char>)>,
    now: int,
    output: Seq<char>,
    label: Seq<char>,
    hint: Seq<char>,
)
    ensures
        ({
            let v = cache_verdict(ttl_minutes, previous, now, output, label, hint);
            let fresh = previous is Some && now - previous.unwrap().0 <= ttl_minutes * 60;
            &&& (v is Unchanged) <==> (fresh && previous.unwrap().1 == output)
            &&& v is Unchanged ==> v->lines == text_lines(output).len() && v->age_minutes == whole_minutes(
                now - previous.unwrap().0,
            )
            &&& v is Diff ==> fresh && previous.unwrap().1 != output && rendered_delta(
                previous.unwrap().1,
                output,
                label,
                hint,
                whole_minutes(now - previous.unwrap().0),
            ) == Some(v->rendered)
            &&& (fresh && previous.unwrap().1 != output && rendered_delta(
                previous.unwrap().1,
                output,
                label,
                hint,
                whole_minutes(now - previous.unwrap().0),
            ) is Some) ==> v is Diff
            &&& !fresh ==> v is Miss
        }),
{
}

/// What deduplicating a command's output prints, in terms of the entry found:
/// - text is printed in place of the output only for an output the cache
///   admits and an entry within the time to live; an expired or missing
///   entry always leaves the output to be printed in full;
/// - a repeat of the same content within the time to live is always
///   replaced by the unchanged notice (with the command's label, the entry's
///   age and the output's line count, and the command's recovery hint);
/// - changed content is replaced only by its rendered delta;
/// - an entry is stored exactly when the cache admits the output: the output
///   itself, at time `now`, under the command's key.
pub proof fn lemma_dedupe_outcome_cases(
    cache: ReadCache,
    cwd: Seq<char>,
    cmd_label: Seq<char>,
    output: Seq<char>,
    previous: Option<(int, Seq<char>)>,
    now: int,
)
    ensures
        ({
            let (text, stored) = dedupe_outcome(cache, cwd, cmd_label, output, previous, now);
            let label = command_display(cmd_label);
            let hint = COMMAND_RECOVER_HINT@;
            let fresh = previous is Some && now - previous.unwrap().0 <= cache.ttl() * 60;
            let age = whole_minutes(now - previous.unwrap().0);
            &&& text is Some ==> cache.admits_text(output) && fresh
            &&& (cache.admits_text(output) && fresh && previous.unwrap().1 == output) ==> text == Some(
                notice_text(label, age, text_lines(output).len(), hint),
            )
            &&& (text is Some && previous.unwrap().1 != output) ==> rendered_delta(
                previous.unwrap().1,
                output,
                label,
                hint,
                age,
            ) == text
            &&& (stored is Some) <==> cache.admits_text(output)
            &&& stored is Some ==> stored == Some((entry_file(command_key(cwd, cmd_label)), now, output))
        }),
{
}

/// A notice tells its reader what it is about and how old it is: besides the
/// label and the hint, it holds the line count followed by ` lines` and the
/// age followed by `m ago`.
pub proof fn lemma_notice_counts(label: Seq<char>, age_minutes: int, lines: nat, hint: Seq<char>)
    ensures
        contains_text(notice_text(label, age_minutes, lines, hint), decimal(lines) + " lines"@),
        contains_text(notice_text(label, age_minutes, lines, hint), signed_decimal(age_minutes) + "m ago"@),
{
    reveal_strlit("m ago (");
    reveal_strlit("m ago");
    reveal_strlit(" (");
    reveal_strlit(" lines, already in your context — ");
    reveal_strlit(" lines");
    reveal_strlit(", already in your context — ");
    let n = notice_text(label, age_minutes, lines, hint);
    let p1 = "[nexus delta] "@ + label + " unchanged since "@;
    let d = signed_decimal(age_minutes);
    let c = decimal(lines);
    assert("m ago ("@ =~= "m ago"@ + " ("@);
    assert(" lines, already in your context — "@ =~= " lines"@ + ", already in your context — "@);
    let tail = ", already in your context — "@ + hint + ")\n"@;
    assert(n =~= p1 + (d + "m ago"@) + (" ("@ + c + " lines"@ + tail));
    lemma_contains_middle(p1, d + "m ago"@, " ("@ + c + " lines"@ + tail);
    assert(n =~= (p1 + d + "m ago"@ + " ("@) + (c + " lines"@) + tail);
    lemma_contains_middle(p1 + d + "m ago"@ + " ("@, c + " lines"@, tail);
}

/// A text holds each of its middle pieces.
proof fn lemma_contains_middle(x: Seq<char>, y: Seq<char>, z: Seq<char>)
    ensures
        contains_text(x + y + z, y),
{
    assert((x + y + z).subrange(x.len() as int, (x.len() + y.len()) as int) =~= y);
}


/// Which outputs the cache takes: none while it is disabled, and otherwise
/// exactly those of at most 2 MiB of UTF-8.
pub proof fn lemma_admits_cases(cache: ReadCache, output: Seq<char>)
    ensures
        !cache.is_enabled() ==> !cache.admits_text(output),
        cache.is_enabled() ==> (cache.admits_text(output) <==> encode_utf8(output).len() <= 2097152),
{
}

} // verus!
