# moon_ui_components

The logic of a set of desktop UI components, with its behaviour stated in contracts and
proved with Verus.

- `src/dock/`: the docking layout. `item` is the live tree of panels, tab groups, tiles and
  splits; `edit` its local edits; `area` a whole dock (center and side docks) with its
  policy and events; `topology` and `resolve` the shareable name-based topology and its
  resolution onto live panels; `shared` and `named` applying a topology or an exact local
  layout; `state` persistence; `activation` which panels report themselves active;
  `presentation` what the views decide each frame (shown tab, announcements, pinned marks,
  drop routing, controls, split slot sizes, tile paint order); `laws`,
  `reapply`, `restore` and `pins` properties that span operations (a dock's own topology is a
  fixed point of applying it; a captured named layout restores its topology, active tabs and
  zoom; enforcing pinned leaders makes them lead and, where they lead, changes nothing).
- `src/dropdown/`: menu rows, their layout fingerprint and the selection plan.
- `src/input_mask.rs`: pattern and number masks for text input.
- `src/keys.rs`: hotkey capture and keystroke labels.
- `src/foundation.rs`, `src/index_path.rs`, `src/notification.rs`, `src/text.rs`: size tiers,
  grid positions, notifications and string helpers.
- `app/`: host-side glue that Verus does not see: serializable records of the persisted
  types, single-precision geometry (sizes are held in the library as bit patterns), and the
  platform choice of keyboard labels.

Single-precision values (sizes, tile geometry) are held in the library as their IEEE-754 bit
patterns; the library compares and stores them, and the host computes with them.
