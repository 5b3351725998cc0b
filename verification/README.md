# gitalong

Gitalong keeps a team in sync on which files are being worked on across Git
clones. Each clone publishes its unpushed commits and uncommitted changes to
a store (hidden refs on the repository's remote, a git repository, or a
JSONBin.io bin or an HTTP endpoint that answers like one); `gitalong status`
tells where the latest work on a file lives, and `gitalong claim` refuses
files someone else holds.

## Layout

- `src/` is the library, written in Verus. Its functions carry contracts
  that Verus proves, resting on a few trusted items that Verus believes
  without proof: the wrappers around `serde_json::to_string`
  (`config.rs`) and around the `time` crate's date formatting
  (`date.rs`), and the assumed specification of `String::push`
  (`text.rs`). Each says in its doc comment what it claims of the outside
  code.
  The modules:
  - `spread.rs`, `commit.rs`: the eight scope flags of a record and how a
    record's spread follows from its branches and issuer;
  - `operations/`: the status line and the newest record per path
    (`status.rs`), the sorted local view a clone publishes (`update.rs`),
    which claims go through (`claim.rs`), and which files are writable
    (`permissions.rs`);
  - `store/`: which backend a URL selects, what publishing replaces, which
    records a clone reads back, `$NAME` expansion in header values, and the
    ref names of the refs store;
  - `config.rs`, `hooks.rs`, `repository.rs`, `date.rs`, `text.rs`: the
    configuration properties, the `.gitignore` patch, path forms, dates, and
    the string and number parsing they share;
  - `testing.rs`: the request rules of the stand-in JSONBin server that
    end-to-end fixtures run.
- `app/` is the command-line program around the library: argument parsing,
  git and filesystem access, the store backends' I/O, JSON encoding, and
  the test fixtures.
- `tests/` exercises the library's public functions on concrete values.
