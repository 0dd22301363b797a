# forge_memory

A tile memory store for Plato agents, with its core verified in Verus.

Tiles live in three sled trees: `tiles` (the bincode record of each tile under
its 16 id bytes), `kind_index` (the kind's name and `:`, then the id
bytes, mapped to the id bytes; an unknown kind whose name holds a `:` or is a
built-in kind's name is written between two `0xFF` bytes instead, so that its
keys stay apart from every other kind's) and `source_index` (the source's id bytes and the tile's id
bytes, mapped to the tile's id bytes).

- `src/` is the verified library: tile kinds and their labels (`kind`), ids
  and their keys (`ids`), the index key layout (`keys`), the writes and
  removals that storing and compaction issue and what they do to the trees
  (`layout`), the agreement of the indexes with the stored tiles (`catalog`),
  case-folded byte matching (`text`), search scoring (`search`), ranking
  (`rank`) and statistics (`stats`).
Storing a tile under an id that is already stored first takes out the index
entries of the tile it replaces.

- `app/` is the store itself: it opens the sled database, serializes tiles,
  adds the floating-point embedding similarity to search scores, and performs
  the operations that the library decides.
