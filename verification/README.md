# mir

The render engine for a knowledge graph: it reads a `.graph` file, lays the particles out in
space, groups them into a four-scale cluster hierarchy, and draws them.

`src/` is the library, verified with Verus. Whoever runs it on the same graph arrives at the same
vocabulary and the same adjacency matrix. The cluster tree, the draw order and the edges of a frame
depend on nothing but the graph and the numbers measured on it: cells, focus sums, depths. Given
the same numbers they are the same, and the `law_` proof functions state it. The numbers themselves
come from the floating-point code in `app/`.

| module | what it decides |
|---|---|
| `graph` | sections of a file, records of links, particle indices, adjacency matrix |
| `epoch` | seeds and selection of eigenvectors, clusters and their labels, boxes, roles |
| `frame` | tiers, depth order, visible edges, records for the kernels, labels, camera entry |
| `nrf` | hash grid, seeds, pixels that the background fills |
| `overlay` | shape, hue and size of a particle with metadata |
| `conformance` | topology and position checks, the report |
| `backend` | buffers of the reference backend |
| `gpu` | sizes, frame readback, import of host memory |
| `bevy` | what each system of the graph world does in a frame |

`app/` is the ordinary Rust around it: files, threads, floating-point kernels, wgpu, Bevy. The
library takes what floating-point code has measured as bit patterns and hands back decisions.
There is no pass that rasterises lines, so the splat and sphere chain draws no edges; the paint pass
takes them as segments.

`tests/` runs the library on concrete values.
