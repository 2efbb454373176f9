# ttd

A terminal UI and command line for a todo.txt task directory (one task per
file), with smart lists: `.list` files whose frontmatter names the list and
whose body holds filter conditions, sort and group directives.

The library (`src/`) is verified with Verus:

- `smartlist` reads list files and evaluates them: filtering, stable
  sorting, grouping;
- `date` does the calendar arithmetic behind `today + N`;
- `session` is the state of the terminal session: the sidebar, the tasks
  the active entry shows, the search, the selection and how it follows a
  task across reloads, and what each action asks of the task directory;
- `config`, `keys`, `mouse`, `render` and `list_order` hold the smaller
  rules: the configuration file, key names, click targets, scrolling and
  the order of the lists;
- `text` and `task` hold the character-level helpers and the task model.

`app/` is the program around it: argument parsing, the terminal, and
reading and writing the task directory and the configuration.
