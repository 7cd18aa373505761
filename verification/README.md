# vecta

A vector database core whose index structures, file formats, write-ahead
log, request rules and graph-maintenance decisions are specified and proved
with Verus.

Layout:

- `src/` — the verified library. Vectors are held as the bit patterns of
  their `f32` coordinates; every decision the indexes make (what is stored,
  in which order results come out, what an error says, how a file is laid
  out) is stated as a contract over mathematical models and proved.
  - `flat_index`, `ivf`, `pq`, `hnsw`, `sharding`, `concurrent`: the indexes.
  - `topk`, `layer_search`, `hnsw_insert`, `hnsw_search`: ranking, and the
    HNSW layer search, insertion and query as state machines that ask their
    caller for distances.
  - `codec`, `serialize`, `hnsw_format`, `ivf_format`, `ivf_pq_format`,
    `wal`, `persist`: byte formats, with encode/decode round trips.
  - `server`, `filter`, `binding`, `messages`: the rules of the HTTP
    service, of metadata filters and of the Python classes, and the text of
    file and log errors.
- `tests/` — tests that run the library on concrete values.
- `app/` — the executable around it: the HTTP server, file I/O, the
  floating-point kernels (distances, k-means, product quantisation, metadata
  comparisons) and the Python bindings, driving the verified state machines.
