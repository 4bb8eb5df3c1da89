# cleepboard

The core of a clipboard manager for Linux desktops (Wayland and X11), written
in Verus. Every function under `src/` carries a contract; Verus proves all of
them but one: `text::push_char`, which calls `String::push` and whose contract
(the character is appended) is trusted.

## Layout

| Path | What it holds |
|------|---------------|
| `src/store.rs` | The history: items, settings, de-duplication of texts and images, pinning, trimming to the configured size |
| `src/laws.rs` | Properties of the history across operations (an added text is present, adding it again leaves one item holding it, toggling twice restores an item, a deleted id is gone, moved images keep their names) |
| `src/hotkey.rs` | The GVariant list of GNOME custom keybindings: parsing, formatting, and the `gsettings` calls that register or unregister the toggle shortcut |
| `src/clipboard.rs` | Which clipboard and keystroke commands to run for a backend, and what their output means |
| `src/session.rs` | The clipboard watcher's decisions, copying an item, base64 data URLs, the data directory, tray actions |
| `src/path.rs`, `src/text.rs` | Unix path components and joins; trimming, splitting, number formatting and search over characters |
| `app/` | The Tauri application around the library: commands, the watcher thread, the tray, JSON persistence, running processes |
| `tests/` | Tests of the library on concrete values |

The library decides and computes; `app/` performs the I/O (processes, files,
clock, environment) and hands the results back to it.
