# rust_study

A small verified library:

- `minigrep` — splitting text into lines and finding the lines that contain a
  query, with or without regard to case, and the command-line configuration of
  the search;
- `single_list` — a singly linked list of boxed nodes;
- `double_list` — a doubly linked list whose nodes live in a dense arena of
  slots linked by index;
- `timer` — the decisions of a timer future: what a poll answers and whether
  the end of the timer wakes a task;
- `penguins` — trimming, splitting on a separator, and reading the name and
  length fields of a table of penguin records;
- `study` — small arithmetic and greeting functions.

`app/` holds the program around it: the `minigrep` command, and, behind
`--single-list`, `--double-list`, `--timer`, `--hello-macro`, `--unsafe`,
`--world-hello`, `--penguins` and `--race`, the demonstrations that print, run
threads, call C, or use raw pointers.
