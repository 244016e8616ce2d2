# tinyshell

The core of a small interactive shell, written in Verus and proved against
its contracts.

- `src/text.rs`: Unicode white space, trimming, joining, and byte offsets of
  UTF-8 text.
- `src/input.rs`: splitting a command line into words (single and double
  quotes, backslash escapes) and reading the redirections `>`, `1>`, `>>`,
  `2>`, `2>>`.
- `src/decode_command.rs`: what a command does (`exit`, `echo`, `type`,
  `pwd`, `cd`, `cat`, outside programs), its exit status, and the texts the
  shell prints.
- `src/completer.rs`: TAB completion of builtins and programs on the search
  path, sorted and without repeats, and the bell-then-list behaviour of
  repeated TABs.
- `app/`: the program around the library: the `rustyline` editor, the file
  system, processes and the terminal.
