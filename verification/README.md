# vendiwm

The window-management core of the vendiWM Wayland compositor, verified with
Verus, and the thin binary around it.

- `src/` — the library. Every function is verified, but for one trusted
  wrapper around `String::push`:
  - `layout`: the binary tiling tree, its layout modes and placements;
  - `workspaces`: dynamic per-monitor desks, the stage shelf, moving and
    removing windows;
  - `desk`: viewport and gap geometry, floating windows, directional focus,
    fullscreen, resize;
  - `chrome`: tab groups (stacks) on a tile;
  - `actions`: what a keybinding or an IPC request does to the desks, and the
    effect left for the compositor;
  - `pins`: pinned (picture-in-picture) windows that follow you across desks;
  - `overview`: the integer geometry of the overview's panel and thumbnail
    grids;
  - `config`, `input`, `keyboard`: the config document, chord and action
    parsing, the built-in shortcuts, and where a key event goes (unlock
    screen, overview, binds, client);
  - `ipc`: the protocol model, newline framing and event routing;
  - `outputs`: display-mode choice, connector rescans, output placement, and
    floating rules for new windows;
  - `idle`: the idle policy (auto-lock, screensaver, screen-off) as a step
    from state and timer tick to state and actions;
  - `geometry`, `text`: rectangles and character helpers.
- `app/` — the binary: logging, the config file (KDL via `knus`; the key
  names to look up come from `config::key_lookups`, the lookup itself is
  `xkbcommon`'s, which links against the system libxkbcommon), the IPC socket (JSON via `serde_json`), spawning processes.
  The display backends are not part of this build.
- `tests/` — tests of the library on concrete values.
