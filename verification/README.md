# isitme

Is it me? Diagnose whether your network is the problem when a call is acting
up: ping the call vendors' endpoints and DNS baselines, run a speed test, and
print a verdict (`It's you.`, `It's them.`, or all clear).

## Layout

- `src/` — the library, verified with Verus:
  - `verdict.rs`: the three-level status, the threshold rules for latency,
    jitter, packet loss and throughput, per-target statistics, the verdict
    and the exit codes, with the laws that hold of them;
  - `bignum.rs`: natural numbers of any size in decimal digits, exact
    decimals and fractions, with their arithmetic and comparison;
  - `ratio.rs`: fractions of 128-bit integers (packet loss, throughput) and
    their overflow-free comparisons;
  - `ping.rs`: the parser of `ping` output (`time=<number>` per reply line),
    which keeps every digit of each round trip;
  - `render.rs`: the boxed table, the banner (colored and plain), and what a
    terminal shows of text with ANSI escapes;
  - `targets.rs`: the hosts pinged and their labels;
  - `speed.rs`: throughput from a byte count and an elapsed time;
  - `version.rs`: version comparison (through `semver`) and the decisions of
    the update check;
  - `text.rs`: string helpers.
- `app/` — the command-line program: argument parsing, running `ping`, the
  HTTP speed test, the update check's cache and network access, the JSON
  output, and the floating-point figures printed in the table.
- `tests/` — tests of the library.

Round trips are kept as the exact decimals the replies print, and averages,
variances, losses and rates as exact fractions, so each threshold is decided
exactly. The figures shown in the table are floating-point values formatted
by the program, as before.
