# lib

Verified building blocks of an incremental compiler front-end, written in
Verus: every function in `src/` carries a contract that Verus proves.

## Layout

- `src/arena.rs` — unit identifiers, versioned entries and weak references.
- `src/lexis/` — token rule sets (`TokenSet`), token references, and token
  sites and spans over tokenized text (`TokenText`).
- `src/syntax/` — the syntax side:
  - `rule.rs`, `index.rs` — the sorted `NodeSet` and the insertion-ordered
    `RuleSet`, with their laws (canonical layout, exclusion undoing
    insertion);
  - `recovery.rs` — panic-mode error recovery with nested token groups;
  - `error.rs`, `describe.rs` — syntax errors: span alignment to the
    surrounding blanks, titles and messages built from rule descriptions;
  - `session.rs`, `observer.rs`, `immutable.rs` — the bookkeeping of a
    parsing session, its observable variant, and the immutable syntax tree
    it builds;
  - `parse.rs` — the builder of parse trees with line and position tracking;
  - `captures.rs`, `children.rs`, `morphism.rs`, `node.rs`, `cluster.rs`,
    `no.rs`, `void.rs`, `simple.rs`, `tree.rs` — node references, captures
    and children of nodes, and the trivial syntaxes.
- `src/units/` — the mutable unit and the storage:
  - `mutable/lexis.rs` — the scan of a text by a lexical grammar
    (`Token`, which recognises one token at a time): the library's scanning
    loop with mismatch runs, stopping where a rescan meets an old token
    boundary, and the lemmas that a rescan from a token boundary agrees with
    a scan from the start;
  - `mutable/syntax.rs` — the syntax grammar (`Grammar`) and the reparse
    session: `descend` reuses an old cluster that the edit did not reach and
    parses anew otherwise, `run` parses the tokens one cluster after another;
  - `mutable/unit.rs` — `MutableUnit`: a text cut into tokens and parsed,
    whose `write_and_watch` splices the text, rescans it around the edit
    and reparses it, reporting the new nodes; its chunks are always the scan
    of its text and its syntax the parse of its tokens, so a unit is
    determined by its text;
  - `storage/tree.rs` — the `TokenTree` of chunks: bulk loading by layers
    with bounded occupancy, in-place split and join (nodes along the edge
    are merged, rebalanced or split), write within a page when it keeps its
    bounds (otherwise as split and join), lookup by site, and the page
    layout of bulk loading as `Spread` distributes the chunks;
  - `storage/spread.rs`, `storage/string.rs` — the `Spread` of items over a
    tree's layers, and the `PageString` that keeps the texts of a page of
    tokens in one buffer;
  - `mutable/watcher.rs`, `mutable/iters.rs` — watchers and iterators of
    mutable units.
- `tests/` — tests on concrete values.
- `app/` — the printing side: debug watchers and observers, and `Display`
  adapters.

The library has no outside dependencies besides `vstd`.
