# sindri

The engine-independent core of a small 2D game framework and its editor
runtime, written in Verus. The functions under `src/` carry contracts that
Verus proves, with one exception: `runtime::to_ascii_uppercase` calls the
standard library's `str::to_ascii_uppercase`, which Verus has no
specification of; its contract is trusted, not proved.

## Layout

- `src/world.rs` – entities and their components, one per kind and entity; `src/hierarchy.rs` and
  `src/entities.rs` – parent links and built-in components.
- `src/commands.rs` – undoable editor commands and the undo/redo history.
- `src/state.rs` – the game-state stack with deferred transitions.
- `src/grid.rs`, `src/pathfinding.rs` – grids, neighbor rules and A* search;
  `src/platform.rs` – the platformer reachability graph and its search;
  `src/navigation.rs` – the navigation-grid component.
- `src/component.rs`, `src/render.rs` – tile maps, palettes, solid regions
  and renderer handles; `src/draw.rs` – the order in which a scene is drawn.
- `src/input.rs` – keyboard/mouse state and action bindings.
- `src/assets.rs` – the asset cache.
- `src/scene.rs`, `src/cameras.rs`, `src/patching.rs` – editable scenes, the
  active-camera rule and field patches from edit requests.
- `src/runtime.rs`, `src/scripting.rs` – playback control, project defaults,
  key names and script bookkeeping.
- `app/` – plain Rust around the library: settings files, float math
  (vectors, camera, world transforms, animations, lights) and geometry,
  jump/fall simulation, JSON request bodies.
- `tests/` – tests of the library.
