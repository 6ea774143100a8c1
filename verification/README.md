# minishell

A small interactive shell. The library, under `src/`, holds what the shell decides,
each part with its behaviour stated and proved in Verus:

- `parse`: splitting a command line into words and output redirections (quotes,
  backslash escapes, `>`, `>>`, `2>`, `2>>`).
- `trie`, `bitmap`: the prefix tree of command names used for Tab completion, with
  a 256-bit occupancy bitmap per node.
- `buffer`, `terminal`, `prompt`: the line editor: cursor movement, insert and
  overwrite, completion and candidate listing, and the escape sequences each key
  sends to the terminal.
- `input`: UTF-8 decoding of the bytes typed and recognition of ANSI control
  sequences.
- `commands`: which command a line names, where its output goes, where `cd` goes,
  and what the builtins print.
- `text`: character and string helpers.

`app/` is the program around it: terminal modes through `libc`, reading keys,
writing output, running external programs, and the builtins' file-system and
environment work. Two path operations of `cd`, removing a leading `~` component and
joining the home directory, are calls into `std::path` that the library makes and
names without proving what they return.
