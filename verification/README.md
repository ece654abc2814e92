# host_lifecycle

The mechanical half of an agentic host project's lifecycle, as a verified
library: the memory stores and their audit (`dream`), register and issue
references (`refs`, `resolve`), the environment fingerprint (`envhash`), the
setup completeness check and the fresh-clone orchestrator's decisions
(`setup`, `bootstrap`), and the MCP server's decisions (`mcp`).

- `src/` is the library. Every executable function there carries a contract
  that Verus proves, except small trusted wrappers whose contracts Verus
  takes as given: over std, `char::is_alphanumeric`, `str::to_lowercase`,
  `String::push`, `{:?}` formatting of a text, and the system clock
  (`SystemTime::now`, `duration_since`, `Duration::as_secs`, which
  `memory::today` reads); over serde_json, five reads of a JSON-RPC line
  (whether it parses, and the string, integer, presence or JSON text at a
  pointer), whose results are named rather than restated. The
  laws the library keeps (an entry written to its file reads back as itself,
  a tier marker reads back as written, the audit reports the per-user tier
  first, writes and deletes keep the index in slug order and a listing finds
  what was written, masking keeps every column, one report per line and text, …) are
  public proof functions beside the code they are about.
- `app/` is the command line around it: arguments, files, git, and the
  JSON-RPC transport over stdio (each line read is handed to
  `mcp::message_of_line`). It hands the library plain values and prints what it answers.
- `tests/` runs the library on concrete values.

The program answers `dream`, `resolve`, `refs` and `mcp` in full. `env --check`
and `bootstrap` run in a tree without a software recipe; the recipe reader
(`.host-software`) and the `software` verb are not part of this program, so a
tree that carries a recipe is told so and exits 2.
