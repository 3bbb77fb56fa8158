# magic_mount

Magic mount puts the files of the enabled modules under `/data/adb/modules`
over the system partitions: each module file is bind-mounted, symlinks are
cloned, whiteouts hide files, and a directory that needs it gets an overlayfs
built from a tmpfs upper directory.

The library in `src/` takes every decision and is verified with Verus; the
crate in `app/` reads the disk, performs the mounts and reports back.

- `text` — escaping of overlayfs option values and the `lowerdir` option
  (proved to read back to its layers), path joining, decimal numbers, and
  the order of names.
- `error` — the error that mounting reports: a message and its contexts.
- `node` — the tree of module files and the merge of a module's directory
  listing into it (proved, whether the merge succeeds or fails, to keep
  every level sorted by name, to keep every child there was, to add only
  children that the listing names, each as its entry says, and to keep the
  first module's file where two modules provide one).
- `modules` — which modules and partitions take part, and the tree of all
  modules, whose sortedness and root shape are a type invariant.
- `walk` — the decisions on a directory: whether it needs an overlay, which
  children are skipped, and the order in which children are visited (proved
  to visit each child that is not skipped exactly once).
- `visit` — the visit of one node as a machine that asks for one operation
  at a time (proved to come to an end).
- `overlay` — overlayfs options, the directory a work directory copies, and
  the staging of lower layers when there are more than one mount takes
  (proved, over a whole plan, to stand for the original layers in order).
