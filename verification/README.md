# skill_workspace

The core of a local Skill manager, written in Verus. A Skill is a directory
holding a `SKILL.md` document with YAML frontmatter; the manager keeps an
index of the Skill directories under the roots a user authorizes, shows
their details, edits them, organizes them with tags and groups, finds
duplicates, and copies, moves, overwrites, imports from ZIP archives and
trashes them, with undo.

## Layout

- `src/` is the verified library. Each public function states what it
  returns in its `ensures`, over spec functions and views; the laws that tie
  several functions together are public proof functions.
  - `text.rs`, `path.rs`, `sorting.rs`: strings, lexical Unix paths
    (components, safe relative paths, joining, normal form) and sorting.
  - `catalog.rs`: root and instance statuses, the frontmatter of a Skill
    document, instances found by a scan, and what a scan outcome means.
  - `detail.rs`: lookups in the catalog, file kinds and previews.
  - `edit.rs`: draft validation, the target of a draft, composing
    `SKILL.md`, and the plan of the writes and deletions of a change.
  - `organization.rs`: tag and group names, changes and custom orders.
  - `similarity.rs`, `duplicate.rs`: name normalization, character bigram
    similarity, file comparison, text diffs, and duplicate groups.
  - `file_operations.rs`: planning file operations, ZIP entry and link
    safety, backups, undo records and recovery decisions.
- `app/` is ordinary Rust around the library: the SQLite index, reading and
  writing files, ZIP archives, the system trash, and serde copies of the
  library's types. It hands the library plain values and acts on what it
  returns.
- `tests/` run the library on concrete values.
