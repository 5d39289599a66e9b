# foxinsocks

A desktop duplicate-file cleaner. Each task names a folder, file-name
patterns and a number of copies to keep; a cleaning loop periodically groups
the folder's files (a pattern with a capture group groups the files whose
names contain the text of group 1; a pattern without groups groups the files
it matches) and deletes all but the newest copies in every group.

- `src/` — the verified library: the task store and process registry
  (`controllers`), the command backend (`commands`), task models (`models`),
  pattern compilation and key extraction (`patterns`), the planning of a
  cleaning pass (`cleanup`), log lines and log tails (`utills`), and string
  helpers (`text`). Contracts and laws are checked by Verus.
- `app/` — the unverified shell: JSON save file, log file and console output,
  the async cleaning loop that lists folders, deletes files and sleeps, and the
  command entry points the user interface calls.
- `tests/` — scenario tests of the library.
