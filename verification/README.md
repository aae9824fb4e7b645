# sdirstat

A disk-usage analyzer: a parallel scan, one pass that sums every subtree, and any output: a
self-contained report page, a nested JSON tree, a QDirStat cache file, or a local web application.

- `src/` is the library. Every item of it is verified with Verus: what each function returns is
  stated in its contract, and what holds of several of them together is stated as a law (a public
  proof function whose name starts with `law_`).
- `tests/` runs the library on concrete values.
- `app/` is the program around it: files, threads, system calls, sockets and processes.
  `app/shell/` is the native window, a program of its own.

## What is proved

- The size fold: a subtree is what its root brings and the subtrees of its children, the root holds
  every byte once, and pruned output keeps every total.
- The walk: a directory stands before its entries, a directory is listed once and none is left out,
  a file with several links counts once, links and (if asked for) other file systems are not entered.
  Over a tree that does not change, every number of workers and every order of their steps finds the
  same files and counts the same bytes, and so do both ways to list a directory. A walk that the entry
  limit cuts short always ends with at least that many nodes, and one below the limit is complete.
- The sweep: however many requests are in flight and in whatever order they are answered, every
  directory that is reached is listed once, and entries and bytes are those of what is there.
- Formats: every byte of the JSON, cache and HTTP output. A cache file that is read again holds every
  entry once, at its path and with its size, and nothing else but the directories above the root.
  There are two exceptions: names with white space beyond ASCII, for which the format has no escape,
  and two sibling directories of one name, which are read as one directory. A JSON tree gives back
  its total whatever the root is called.
- The scan cache: a response is served exactly while the directory's modification time is the one
  that was read at the scan, and only the response that was used longest ago makes room.
- File actions: only posted ones are taken, the root and the home directory are refused, however
  their slashes and single dots are written, and removal is always a move to the trash. Paths are
  compared as they are written: links and double dots are not resolved.

What is taken on trust beside Verus and its library: that `String::push` appends a character, and
that `String::from_utf8_lossy` reads valid UTF-8 as the text it encodes.
