# ojo

A version control system for a single text file, built on patches that commute. The history
of a branch is a *graggle*: a directed graph of lines in which deleted lines stay as "ghosts"
and pseudo-edges stand in for paths through them. A patch adds lines, deletes lines and adds
edges; a branch holds a set of patches, and its file is the graggle's lines in their order,
when that order is total.

## Layout

- `src/` is the library, written in Verus: every function carries a contract that the verifier
  proves.
  - `diff`, `lis`: line diffs (common ends, patience matching, longest increasing subsequence).
  - `graph`, `dfs`, `topo`, `reach`, `components`, `partition`, `filtered`: graphs and the
    algorithms on them (depth-first search, topological sort, strongly and weakly connected
    components, filtered and doubled graphs).
  - `ids`, `change`, `patch`, `file`: patch ids, changes, patches and files.
  - `graggle`, `apply`, `graggle_graph`, `storage`: graggles, applying and unapplying changes,
    the graggle as a graph, and the store of lines and graggles.
  - `resolver`, `chain_graggle`: walking a graggle to resolve it into a file, and splitting
    it into chains.
  - `repo`: a repository of branches and patches.
  - `record`: the proof that recording an edit as a patch and applying it gives back the
    edited text.
- `tests/` runs the library on concrete values.
- `app/` is the command-line tool: arguments, files, and the YAML form of patches and of the
  repository.
