# generator_core

A procedural generator of 2D game maps in the style of Metroid and Castlevania
games, written in Verus: the library's logic is executable Rust whose
behaviour is stated in `requires` / `ensures` contracts and proved.

How a map is made:

1. The grid is cut into regions, and each region into rectangles by binary
   space partitioning (`bsp`). The rectangles of a region tile it, and
   adjacent rectangles know each other.
2. Each region's rectangles become rooms (`map_region`, `map_builder`); rooms
   are merged at random (`merge_rooms`), disconnected groups are joined
   again (`reconnect_rooms`), small rooms are merged and long horizontal rooms
   cut in three (`bisect_rooms`).
3. Doors are placed between neighbouring rooms (`add_doors`), rooms are
   decorated by style (`room_decorator`), and regions are merged into one map
   or linked to each other (`merge_regions`, `connect_regions`).
4. The maps are drawn as a scene of shapes (`drawing`, `polygon_builder`).

Layout:

- `src/` — the verified library. Calls into `rand`, `tinyset`,
  `priority-queue` and `anyhow` go through small trusted wrappers whose
  contracts state what those crates document.
- `tests/` — tests of the library on concrete inputs.
- `app/` — a command-line program that builds a map and writes it as SVG.
