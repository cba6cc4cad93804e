# voxel_storage

Storage for voxel terrain: dense multi-channel buffers, blocks of them in sparse
maps at several levels of detail, and data that tasks share and change in
transactions. The library is written in Verus. Every function states what it
returns or changes, over a mathematical model of its type, and is proved to do so.

## Layout

Each type has a model, a view of the type as that model, and a well-formedness
predicate `wf` that constructors establish and operations keep.

* `grid`, `math`, `boxes`, `sorting`, `collections`: cells, vectors, boxes,
  orders, and facts about sequences and maps.
* `funcs`: copying, filling and turning three-dimensional arrays in ZXY order.
* `depth`, `channel`, `buffer_model`, `voxel_buffer`, `metadata`,
  `voxel_memory_pool`: voxel buffers. A channel has one value for all voxels, or
  one for each at 8, 16, 32 or 64 bits.
* `voxel_format`, `voxel_data_block`, `position_map`, `voxel_data_map`,
  `map_areas`, `map_paste`: blocks and maps of blocks.
* `generator`, `voxel_data`, `voxel_data_lods`, `data_copy`: voxel data at
  several levels of detail, with the cascade that carries edits up.
* `revision`, `spatial_lock`, `mutation_error`, `shared_data`, `shared_edits`,
  `shared_views`, `shared_marks`, `shared_lods`: shared data. Every block key has
  a revision, and every change is made as a whole or not at all.
* `transaction`, `prepared_transaction`, `transaction_preview`, `voxel_edit`,
  `resident_copies`: transactions that are prepared first and committed later.
* `buffer_laws`, `data_laws`, `shared_laws`: what holds of several operations
  together.

`app/` holds what surrounds the library: distances as floating-point numbers, and
a handle that threads share.

## Memory

Whether memory can be had is up to the machine. An operation that reserves memory
before it changes anything comes in two forms: one that asks for the room itself,
and one that is told whether there is room, whose contract is exact.
An operation that needs no room never fails for want of it.

## What is trusted

* `bytemuck::cast_slice` and `bytemuck::cast_slice_mut`, which show the numbers of
  a channel as bytes (`channel`).
* `HashMap::try_reserve` (`position_map`).
* `Arc::ptr_eq` (`shared_data`), which tells whether two handles are of one
  generator, or of one data.
