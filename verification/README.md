# hintshell

HintShell suggests shell commands as you type: from your history, from a catalog of
common commands, and from what the working directory holds (files, the project's tools,
git branches, package scripts, SSH hosts).

The crate has two parts.

- `src/` is the library, verified with Verus: parsing the command line, ranking and merging
  suggestions, the context candidates, path completion, the live overlay's state machine
  and its frames, the in-band markers of the shell hook, the shell hooks and the init
  blocks written to rc files, version comparison, the daemon's start-up decisions, the search for the project root and the
  small caches. Each public function
  states its result in its contract; the laws that span several calls (such as that
  uninstalling removes the block that installing appended and keeps every other line, or that
  the stream filters give the same result however the output is cut into reads) are public proof functions.
- `app/` is the program around it: the `hintshell` command line, the daemon with its
  SQLite store and socket, the pseudo-terminal loop of the live overlay, and the file,
  process and network work. It hands the library plain values and acts on what comes back.

`tests/` exercises the library on concrete values.
