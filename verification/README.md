# smalldeck

The verified core of the XPAD "Small Deck" tray agent, which turns the
F13–F24 keys of an XPAD into launchers for programs, files, folders, URLs and
shell commands.

- `src/` is the library, proved with Verus:
  - `xpad`: decoding the device's key-map (`0x33`) and layout (`0x32`)
    responses into the mapped trigger keys and the key matrix; F-key labels.
  - `store`: the key → entry bindings, kept sorted by key, with their map
    view and the laws of reading back what was written.
  - `launcher`: what a key press launches (open a target or run a command
    line), from the bindings.
  - `icons`: standard base64 and the PNG `data:` URL of an app icon.
  - `text`: character-level helpers (decimal digits, Unicode trimming).
- `app/` is the Tauri shell around it: USB access (rusb), JSON persistence
  (serde_json), process spawning, icon extraction on macOS, the tray, the
  global shortcuts and the UI commands.
- `tests/` exercises the library on concrete values.
