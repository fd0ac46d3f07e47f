# renium

The rules behind a project tool for Roblox places, as a verified library: how a project's files and the
instances of a place stand for each other, how links and packages are applied, how configuration is laid
over itself, how places are compared and published.

- `src/` is the library. It holds the data as plain values and never touches the disk: what a function
  needs to know of files, clocks or other programs is handed to it, and it answers with what is to be done.
  Every function of its own states what it returns, and Verus proves it; the few that only call another
  crate are marked as trusted, and say what is assumed of the call. What holds across functions stands
  beside them as `law_...`.
- `app/` reads files, asks the library, and does what it says.
- `tests/` runs the library on examples.

The library takes these things from elsewhere: SHA-256 digests (`sha2`), glob matching (`globset`), and
from `serde_json` reading JSON, writing it on several lines, and the text of a target. What is assumed of
them stands in `src/digest.rs`, `src/filter.rs`, `src/jsonc.rs` and `src/target.rs`; two assumptions on the
standard library stand in `src/text.rs`.
