# egui_dockyard

The deciding half of a docking widget for egui, verified with Verus.

`src/` holds what a dock decides, each function with a contract Verus proves:

- `address`, `leaf`, `node`, `dock_state` — where tabs live and how they are addressed: node and
  tab identities are handed out once and never reused, so an address follows what it names.
- `drag`, `overlay` — what a carried tab is, where a drop would put it, and whether the overlay
  keeps its hold on the node under the pointer.
- `events`, `mutation`, `apply`, `edit`, `tab_gesture` — what a frame reports, the edits it
  asks for (a tab title's clicks among them), how the application settles the closes among them,
  the one order they are applied in, and what each does to the dock when it is applied: showing,
  closing, detaching, dropping (into a window, an empty surface, a bar, or beside a node, splitting
  it), focusing, folding, stowing, minimizing.
- `row`, `junction`, `cross_split`, `regroup` — how a row is cut into runs and where it draws
  dividers, where separators meet, how a split is regrouped around a crossing out of exactly the
  splits it was made of, and how that grouping is written into the dock.
- `modifiers`, `window` — what held keys mean to a divider drag, and what minimizing or
  collapsing does to a floating window.

`app/` holds what works in floating point or through egui itself: the style, widget ids, the
arithmetic in points that places a row's children and a transposed cross's fractions, and the
conversions between egui's values and the plain values `src/` decides on.
