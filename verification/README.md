# hypr_tools

Verified logic of two small Hyprland tools:

- **hypr-fancyzones** snaps the active window into a zone of the current
  layout (zones are rectangles given as fractions of the focused monitor's
  usable area), switches and cycles layouts, and lists them.
- **hypr-winshot** captures one window's live frame through the
  `hyprland_toplevel_export_v1` protocol and writes it as a PNG.

Layout:

- `src/` — the library, verified with Verus:
  - `json.rs` — JSON documents as library values (parsed by serde_json),
    member access and typed accessors;
  - `text.rs` — character-level helpers (trim, decimal parsing and printing,
    lexicographic order);
  - `config.rs` — the built-in configuration and loading the configuration file;
  - `zones.rs` — layouts, the current layout, monitors' usable area, the
    snap commands, the command line;
  - `capture.rs` — the capture's command line, registry binding, frame
    events and the BGRA/RGBA conversion;
  - `laws.rs` — properties across operations (saved layout reads back,
    cycling order).
- `tests/` — tests on concrete values.
- `app/` — the programs: process and file I/O, Wayland, PNG output, and the
  floating-point scaling of zones and monitor sizes.
