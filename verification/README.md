# weight_folders

Verified core of Weight Folders, a Windows desktop tool that scans a drive or
folder and shows where the space goes as a zoomable treemap next to a folder
tree, keeps snapshots of past scans and validates them in the background.

`src/` is the library, written in Verus; every function in it is verified
against its contract:

- `model`, `subtree`, `edit`, `check`, `resolve`: the arena tree of a scan,
  paths and lookups by path, item counts, sorting children by size, removing
  a subtree and compacting the arena, and a well-formedness check for trees
  read back from disk.
- `scan`: turning the result of a directory walk into a tree.
- `sizes`: directory sizes add up to the sizes of their children; scanning,
  sorting and removing keep it so.
- `counts`: the file, folder and error counters match the nodes of the
  tree; removing a subtree keeps them so.
- `survivors`: compacting and removing keep each remaining node's fields
  and full path.
- `diff`: comparing two scans of the same root.
- `search`, `glob`: name search with substring or `*` / `?` matching.
- `snapshot`: snapshot file names, compression, version check, recent list.
- `start`, `session`: the decisions of the start screen and of a loaded
  session (actions, validation, deletes).
- `treemap`: the integer side of the treemap.
- `paths`, `text`: Windows path components and character helpers.

`app/` is the program around it: the egui user interface, the parallel disk
walk, file I/O, serialization, the clock and the treemap geometry.
`tests/` holds the tests of the library.
