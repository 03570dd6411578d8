# sector

A file explorer that shows the folder one is in as a list or as a city: a
treemap whose blocks stand as high as they hold files.

- `src/` is the logic, verified with Verus: the scanned tree and its cache file,
  paths and names as texts, sorting and filtering, the pane with its selection
  and history, the folder tree, the file operations with undo and redo, the
  clipboard formats, and what the window says. Every function states what it
  returns or changes; the proof functions named `law_…` state what holds across
  functions. Reading and writing disks, and everything else that the outside
  world decides, enters as a value or an event: a file operation is a machine
  that says which action comes next and is told how it went.
- `tests/` runs the library on concrete values, among them a small disk in
  memory on which the file operations work.
- `app/` is the program around it: the window, the disk, the scanning threads,
  the system calls, and the geometry of the treemap and of the city, which is
  floating point.
