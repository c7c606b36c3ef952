# nexus delta cache

A verified library for de-duplicating command and file output shown to a
consumer that keeps what it has already seen:

- `src/text.rs`: line splitting, string comparison, decimal and hex digits.
- `src/diff.rs`: longest-common-subsequence line diff, its optimality and
  reconstruction laws, and the rendered unified-diff notice.
- `src/read_cache.rs`: the cache decision (miss, unchanged notice, diff), entry
  naming by SHA-256, notices, command keys, and the cache laws.
- `src/telemetry_cmd.rs`: the `telemetry` subcommands as plans of steps and the
  status report.
- `app/`: file I/O, clock, environment, JSON entries, and the command-line type.
