# nbtx

Reading and writing Minecraft NBT data (Java Edition, big-endian, and Bedrock
Edition, little-endian), verified with Verus.

## Layout

- `src/` — the library, every function with its contract, proved by Verus.
  - `wire`, `tree`, `codec`, `roundtrip`: the binary format as stated
    functions, the tree codec, and the law that a written document reads back
    as the same tree.
  - `compression`: gzip and zlib files, recognised by their first two bytes
    and inflated or deflated with the `flate2` crate.
  - `writer`, `session`: the streaming writer, and the law that a finished
    writer on which every call succeeded holds exactly one whole document.
  - `reader`, `leaves`: the streaming reader, and the law that reading a
    written document yields every value of its tree that holds no others, in
    order, with its path text.
  - `path`, `path_text`, `path_order`, `edit`, `inverse`, `select`,
    `editor`: paths, edits on the tree (look up, replace, create, delete), and
    their laws (a read after a write gives what was written; deleting what was
    just created gives the tree back; rendered paths parse back; the paths
    kept for a delete cover the asked ones and nest in none another);
    `delete_run`: the steps of the delete command once the chosen paths are
    found.
  - `read_path`: what reading by a path shows (the exact value, or the
    values below it); `value_text`: values typed on the command line;
    `where_match`, `where_delete`: whether a list element satisfies `--where`
    clauses, and deleting the picked elements in the tree.
  - `stream`, `scan`, `filter`, `number`: editing a document while it streams
    from input to output, and the helpers of the command-line editor.
  - `passthrough`, `set_edit`, `create_edit`, `delete_edit`, `decide_edit`:
    what a streaming edit does to a written document in terms of its tree;
    `delete_agree`: the streaming delete of one path agrees with the in-memory
    delete where no other value has that path text.
- `tests/` — tests of the library on concrete values.
- `app/` — the command-line tool: arguments, files, printing, and the
  number formats that need floating point.

Text is encoded with the `cesu8` crate (Java's modified UTF-8), path
patterns are matched with the `regex` crate, and compressed files are read
and written with the `flate2` crate; all three are called from the library
through wrappers whose contracts are stated next to them.
