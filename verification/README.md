# oxitorch

A small tensor engine with reverse-mode differentiation and a data pipeline,
written in Rust and verified with Verus. A thin Python extension module sits
around it.

## Layout

- `src/` is the verified library.
  - `index`, `layout`, `shape`: index and shape arithmetic, broadcasting, slices.
  - `elem`: the element type. Tensors are generic over `Elem`; contracts speak of
    the element operations themselves (`E::plus`, `E::times`, ...), so they hold
    for every element type.
  - `tensor`: tensors over shared storage, with views, elementwise ops,
    reductions, indexing, matrix products and display.
  - `ops`, `iterate`, `parallel`: the op registry, the strided walker, the thread
    pool.
  - `autograd`: the graph, the built-in rules, backward passes, gradient checks
    and optimizers.
  - `data`: NumPy-exact random numbers, image transforms, batches, the loader's
    decisions, MNIST files.
  - `frontend`: the rules behind a scripting frontend's tensor object.
  - `error`, `types`, `text`: errors, element and device types, message texts.
- `tests/` runs the library with 32-bit floats.
- `app/` is the Python extension module: the `f32` element type with its GEMM
  kernel, worker threads, files and Python objects.

## The graph

A `Graph` holds every node of a computation; a `Var` is a handle on one of them.
Nodes stay until `Graph::rewind` drops those made after a point, or
`Graph::sweep` drops those that no handle needs.

## What is proved

Every function of the library states what it returns and changes, and when it
fails. Properties that span functions are proof
functions whose names start with `law_`; among them:

- a backward pass on built-in ops succeeds, touches only what leads to its root
  and requires a gradient, keeps gradients in the shapes of their nodes,
  accumulates into leaves, and frees the rules it used;
- permutations, transposes, slices, scatters and gathers undo or compose as
  expected, and batched products are products per batch;
- an epoch that drops nothing delivers every row exactly once, in the order of
  its plan, with a bounded number of batches in flight.

## What is trusted

Four functions have contracts that are taken as given: the indexed parallel map
and the thread count of `rayon` (`parallel`), gzip decompression by `flate2`
(`data::mnist`), and the quoting of text by the standard library (`text`).
