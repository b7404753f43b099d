# aerodesk

AeroDesk is the desktop companion of Aerofont: the phone records and polishes
text, AeroDesk receives it over a LAN WebSocket and types it at the desktop
cursor without touching the clipboard.

- `src/` is the verified library. `pairing` holds the saved configuration, the
  WebSocket URL, the QR payload and the QR code drawn as SVG; `session` is the
  protocol of one phone connection (authentication, ping, text, heartbeat,
  acknowledgements); `registry` lists the phones; `platform` decides how text
  is typed: the search of the accessibility tree for the control to type into
  (under the active window first, each control once), the insertion and its
  read-back check, then `xdotool`/`wtype`, never the clipboard;
  `system_deps` computes what the developer tool must install; `text` and
  `json` are the string helpers they share.
- `app/` is the program around it: the Tauri window and commands, the config
  file, the tokio WebSocket server, the D-Bus and process calls, whose results
  go back to the library, and the developer tool.
- `tests/` exercises the library on concrete values.
