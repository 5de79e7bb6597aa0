# portly

The logic of a tray tool that lists the listening TCP ports of the
machine, with the process behind each port and the directory of its
executable, and that can end such a process or open a terminal or a file
browser in that directory.

`src/` is verified with Verus:

- `text`, `number`: lines, words, trimming, searching, and decimal numbers
  over characters, as the standard library's string functions treat them.
- `decode`: the text of a command's output (UTF-8, or UTF-16 behind a
  byte order mark).
- `windows`, `macos`: reading `netstat`, `tasklist`, `wmic` and `lsof`.
- `ports`, `table`: the port table, its order, and how it is put together.
- `scan`: which command to run next and the table once all are in.
- `actions`: the commands behind the window's buttons and the order in
  which they are tried, the check for administrator rights at start-up,
  the tray menu and icon, and showing or hiding the window.
- `laws`: properties of every scan.

`app/` runs the commands that the library asks for.
