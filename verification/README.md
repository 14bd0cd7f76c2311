# steel

The rules of a block game's containers, filled maps and loot, verified with Verus.

`src/` is the library. Each public function states what it returns or changes; the
`law_` functions state what holds of several of them together.

- `ident`, `keyed`, `nbt`, `registry`: names, registered values and saved tags.
- `data_components`, `item_stack`, `item_nbt`: items, what distinguishes them, and how
  they are saved.
- `random`, `random_sequences`: sources of random numbers, and named ones that persist.
- `loot_table`: what a chest, a block or an entity yields, from the check of a table to
  the filling of slots.
- `block_entity`: containers, loot that is still to come, exploration maps, furnaces and
  the viewers of lids.
- `inventory`, `behavior`: menus, and what blocks and items do when they are used.
- `map`, `map_color`: filled maps, how terrain and biomes are drawn on them, who carries
  them, and the packets that keep clients up to date.
- `locate`: the search for the nearest structure.
- `saved_data`: messages of failures to load and save.

Fractions are held as numerators over `UNIT_STEPS`, the grid of uniform draws. Positions,
ranges and other floating-point numbers pass through the library as their bits.

`app/` is the server around the library: files, worlds, players, sounds and floating
point. `tests/` runs the library on concrete values.
