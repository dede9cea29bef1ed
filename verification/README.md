# fractal_tiles

A viewer of the Mandelbrot set that computes the picture in square tiles on the graphics device.
The tiles form a quadtree; a tile is computed when the window shows it too coarsely, drawn when it
is the best image there is for its place, and given up when graphics memory runs short.

`src/` is the library: what to compute, draw, keep and give up, where images go in memory, which
device and queues to use, and what to record for the device. It is verified but for nine items
that stand for other crates, whose contracts are believed:

- in `leaves`, the type `IndexSet` of `indexmap`, its contents `ordered_items`, and `ordered_new`,
  `ordered_insert`, `ordered_remove`, `ordered_len` and `ordered_get`
- in `pool`, `align_up`, and in `swapchain`, `max_count`, both of `vulkano`

Its modules:

- `coord`: tiles, the fixed-point grid of their corners, and the window
- `model`: what a tree of tiles is, as a map from tiles to slots
- `node`, `quadtree`: the tree as it is stored, and its operations
- `leaves`, `locks`: which tiles may be given up, in what order, and which must be kept
- `laws`: what holds of the tree across its operations
- `memory`, `pool`: memory types, arenas and slots
- `device`, `swapchain`, `compute`: devices and queues, images to show, work for one tile
- `window`, `worker`: what events lead to, and what a worker does next

`app/` is the program around it: the window, the graphics device, threads, shaders and whatever is
done in floating point. It turns the window's edges and pixel scale into grid units before it
asks the library, and grid units into floating point after.
