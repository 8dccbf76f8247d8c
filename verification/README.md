# zccache

The decisions of a compiler cache, verified with Verus.

- `graph` is the dependency graph: which files a compilation was made from, which artifact it
  made, and whether that artifact can be used again.
- `eviction` and `disk_eviction` keep the caches in memory and the artifacts on disk within a
  budget; what goes is what was used least recently, and no more than is needed.
- `keys`, `remap`, `request`, `request_laws` and `request_cache` make compiler requests
  comparable across worktrees.
- `rustc` and `command` read what compilers are asked to do and what they leave behind.
- `wrap` is the compiler wrapper. It reports only what a compiler did; when the daemon fails, the
  compiler is run.
- `text`, `order`, `age`, `path`, `probe`, `hash`, `clock`, `table`, `fscache` and `context` are
  what the others are built of.

The library reads no files and starts no processes. It says what to look at, takes what was found,
and says what to do; `app/` looks and does. Times are counted in nanoseconds, paths are texts read
in the style of Unix or of Windows.

What is trusted without proof: the map of `dashmap` that finds table rows (`table`), the hash of
`blake3` (`hash`), the monotonic clock of the standard library (`clock`), and `String::push`
(`text`).
