# winsel

A window selector for the kitty terminal: it lists kitty's windows in fzf,
previews them, and focuses, groups, splits or backgrounds the windows picked.

The library (`src/`) is written in Verus and verified:

- `display` builds the tab-separated rows shown in fzf, sorted by rank, and
  proves that the first nine fields of each row read back as the window's
  id, title, command line, encoded command line, directory, creation time,
  encoded directory and label.
- `fzf` holds fzf's arguments: the field shown, the fields handed to the
  preview, and the key bindings.
- `order` sorts rows stably by rank.
- `preview` composes the preview header and picks the lines of text shown.
- `selection` decides what a pick does: which ids, which tabs, and the
  kitty requests to send.
- `kitty_client` builds the command lines of kitty's remote-control requests.
- `kitty_api` holds the window tree that `kitty @ ls` reports.
- `text`, `utils` and `encoding` hold the string, time and base64 helpers,
  each specified over the characters it works on.

`app/` is the program around it: it runs kitty and fzf, reads the JSON that
`kitty @ ls` prints, prints the preview and talks to the clipboard.
