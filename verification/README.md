# git-wasip2 candidate commits

A verified library for creating one-parent candidate commits from a
standalone directory, written in Verus.

- `src/validate.rs`: checks on a request before the repository is touched
  (internal candidate reference, reference name, identity, root entry).
- `src/source.rs`: the source directory as a listing, and the walk that
  decides which files are committed or why the directory is refused.
- `src/commit.rs`: the parent id, whether anything changed, and the changed
  paths that an outcome reports.
- `src/flow.rs`: the course of a candidate commit as states that can only be
  reached in order; a commit is only written for a validated request whose
  new tree differs from what it replaces.
- `src/order.rs`, `src/text.rs`: byte and path orders, stable sorting,
  UTF-8 paths and the decimal signature time.
- `src/git.rs`: what is taken from gix (reference name validation, object id
  decoding), with its contracts.
- `src/laws.rs`: properties across functions.
- `app/`: the file system and repository work (reading the source
  directory, writing blobs, trees and commits) that drives the course.
